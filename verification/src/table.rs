//! Table layout: column widths, word wrapping of cell text, borders and
//! the rows of a rendered table.

use vstd::prelude::*;
use crate::style::{Style, Span, SpanView, Line, plain_style, style_with_fg, spans_view, lines_view};
use crate::document::{Run, RunView, runs_view};
use crate::render::{style_of_run, run_style};
use crate::dump::concat_text;
use crate::text::{is_white_space, char_is_whitespace, chars_of, string_from_chars};
use crate::width::{char_width, char_columns, char_display_width, str_width, str_display_width, columns_of, simple_width_char, simple_width_text};

verus! {

/// A piece of a word in one style.
pub type Fragment = (String, Style);

pub open spec fn fragment_view(f: Fragment) -> (Seq<char>, Style) {
    (f.0@, f.1)
}

pub open spec fn fragments_view(s: Seq<Fragment>) -> Seq<(Seq<char>, Style)> {
    s.map_values(|f: Fragment| fragment_view(f))
}

/// A word (its fragments) or a forced line break.
#[derive(Debug)]
pub enum Token {
    Word(Vec<Fragment>),
    Break,
}

pub enum TokenView {
    Word(Seq<(Seq<char>, Style)>),
    Break,
}

impl View for Token {
    type V = TokenView;

    open spec fn view(&self) -> TokenView {
        match self {
            Token::Word(f) => TokenView::Word(fragments_view(f@)),
            Token::Break => TokenView::Break,
        }
    }
}

pub open spec fn tokens_view(s: Seq<Token>) -> Seq<TokenView> {
    s.map_values(|t: Token| t@)
}

/// The tokenizer's state: tokens so far, the word being built and the
/// characters of its current fragment.
pub struct TokState {
    pub tokens: Seq<TokenView>,
    pub word: Seq<(Seq<char>, Style)>,
    pub buf: Seq<char>,
}

pub open spec fn tok_initial() -> TokState {
    TokState { tokens: Seq::empty(), word: Seq::empty(), buf: Seq::empty() }
}

/// The pending characters become a fragment of the word.
pub open spec fn flush_buf(st: TokState, style: Style) -> TokState {
    if st.buf.len() > 0 {
        TokState { word: st.word.push((st.buf, style)), buf: Seq::empty(), ..st }
    } else {
        st
    }
}

/// A non-empty word becomes a token.
pub open spec fn end_word(st: TokState) -> TokState {
    if st.word.len() > 0 {
        TokState { tokens: st.tokens.push(TokenView::Word(st.word)), word: Seq::empty(), ..st }
    } else {
        st
    }
}

/// One character: a line feed ends the word and forces a break, other
/// white space ends the word, anything else joins the fragment.
pub open spec fn tok_char(st: TokState, c: char, style: Style) -> TokState {
    if c == '\n' {
        let s1 = end_word(flush_buf(st, style));
        TokState { tokens: s1.tokens.push(TokenView::Break), ..s1 }
    } else if is_white_space(c) {
        end_word(flush_buf(st, style))
    } else {
        TokState { buf: st.buf.push(c), ..st }
    }
}

pub open spec fn tok_chars(st: TokState, text: Seq<char>, style: Style) -> TokState
    decreases text.len(),
{
    if text.len() == 0 {
        st
    } else {
        tok_char(tok_chars(st, text.drop_last(), style), text.last(), style)
    }
}

/// The state after the runs: each run's characters in its style, its
/// last fragment closed at the run's end (words go on across runs).
pub open spec fn tok_runs(runs: Seq<RunView>) -> TokState
    decreases runs.len(),
{
    if runs.len() == 0 {
        tok_initial()
    } else {
        let style = style_of_run(runs.last());
        flush_buf(tok_chars(tok_runs(runs.drop_last()), runs.last().text, style), style)
    }
}

/// The words and breaks of a sequence of runs.
pub open spec fn tokens_of(runs: Seq<RunView>) -> Seq<TokenView> {
    end_word(tok_runs(runs)).tokens
}

/// The executable tokenizer state.
pub struct Tokenizer {
    pub tokens: Vec<Token>,
    pub current_word: Vec<Fragment>,
    pub buf: Vec<char>,
}

impl View for Tokenizer {
    type V = TokState;

    open spec fn view(&self) -> TokState {
        TokState { tokens: tokens_view(self.tokens@), word: fragments_view(self.current_word@), buf: self.buf@ }
    }
}

impl Tokenizer {
    fn flush_buf(&mut self, style: Style)
        ensures
            final(self)@ == flush_buf(old(self)@, style),
    {
        if self.buf.len() > 0 {
            let text = string_from_chars(self.buf.as_slice());
            let ghost old_word = self.current_word@;
            self.current_word.push((text, style));
            assert(fragments_view(self.current_word@) =~= fragments_view(old_word).push((old(self)@.buf, style)));
            self.buf = Vec::new();
            assert(self.buf@ =~= Seq::<char>::empty());
        }
    }

    fn end_word(&mut self)
        ensures
            final(self)@ == end_word(old(self)@),
    {
        if self.current_word.len() > 0 {
            let mut word = Vec::new();
            std::mem::swap(&mut word, &mut self.current_word);
            let ghost old_tokens = self.tokens@;
            let t = Token::Word(word);
            self.tokens.push(t);
            assert(tokens_view(self.tokens@) =~= tokens_view(old_tokens).push(t@));
            assert(fragments_view(self.current_word@) =~= Seq::<(Seq<char>, Style)>::empty());
        }
    }

    fn push_char(&mut self, c: char, style: Style)
        ensures
            final(self)@ == tok_char(old(self)@, c, style),
    {
        if c == '\n' {
            self.flush_buf(style);
            self.end_word();
            let ghost old_tokens = self.tokens@;
            self.tokens.push(Token::Break);
            assert(tokens_view(self.tokens@) =~= tokens_view(old_tokens).push(TokenView::Break));
        } else if char_is_whitespace(c) {
            self.flush_buf(style);
            self.end_word();
        } else {
            self.buf.push(c);
        }
    }
}

/// Splits the text of runs into words (with the style of each run's part)
/// and forced breaks.
pub fn tokenize_runs(runs: &[Run]) -> (r: Vec<Token>)
    ensures
        tokens_view(r@) == tokens_of(runs_view(runs@)),
{
    let ghost rv = runs_view(runs@);
    let mut t = Tokenizer { tokens: Vec::new(), current_word: Vec::new(), buf: Vec::new() };
    assert(t@.tokens =~= Seq::<TokenView>::empty());
    assert(t@.word =~= Seq::<(Seq<char>, Style)>::empty());
    assert(t@.buf =~= Seq::<char>::empty());
    assert(t@ == tok_initial());
    let mut i: usize = 0;
    assert(rv.take(0) =~= Seq::<RunView>::empty());
    while i < runs.len()
        invariant
            i <= runs.len(),
            rv == runs_view(runs@),
            t@ == tok_runs(rv.take(i as int)),
        decreases runs.len() - i,
    {
        let run = &runs[i];
        let style = run_style(run);
        let chars = chars_of(run.text.as_str());
        let ghost start = t@;
        let mut j: usize = 0;
        assert(chars@.take(0) =~= Seq::<char>::empty());
        while j < chars.len()
            invariant
                j <= chars.len(),
                t@ == tok_chars(start, chars@.take(j as int), style),
            decreases chars.len() - j,
        {
            assert(chars@.take(j + 1).drop_last() =~= chars@.take(j as int));
            t.push_char(chars[j], style);
            j = j + 1;
        }
        assert(chars@.take(j as int) =~= chars@);
        t.flush_buf(style);
        assert(rv.take(i + 1).drop_last() =~= rv.take(i as int));
        assert(rv.take(i + 1).last() == run@);
        i = i + 1;
    }
    assert(rv.take(i as int) =~= rv);
    t.end_word();
    t.tokens
}


/// Where the first piece of at most `max` columns ends: characters are
/// taken while they fit, and always at least one.
pub open spec fn split_index(s: Seq<char>, max: nat, i: int, w: nat) -> int
    decreases s.len() - i,
{
    if i < 0 || i >= s.len() {
        s.len() as int
    } else if w > 0 && w + char_columns(s[i]) > max {
        i
    } else {
        split_index(s, max, i + 1, w + char_columns(s[i]))
    }
}

pub proof fn lemma_split_index_bounds(s: Seq<char>, max: nat, i: int, w: nat)
    requires
        0 <= i <= s.len(),
    ensures
        i <= split_index(s, max, i, w) <= s.len(),
        (w == 0 && i < s.len()) ==> split_index(s, max, i, w) > i,
    decreases s.len() - i,
{
    if i < s.len() && !(w > 0 && w + char_columns(s[i]) > max) {
        lemma_split_index_bounds(s, max, i + 1, w + char_columns(s[i]));
    }
}

/// The number of characters of the longest prefix of `s` that fits in
/// `max_width` columns, but at least one character.
pub fn split_at_width(s: &[char], max_width: usize) -> (k: usize)
    requires
        3 * s@.len() <= usize::MAX,
    ensures
        k == split_index(s@, max_width as nat, 0, 0),
{
    let mut w: usize = 0;
    let mut i: usize = 0;
    while i < s.len()
        invariant
            i <= s.len(),
            3 * s@.len() <= usize::MAX,
            w <= 3 * i,
            split_index(s@, max_width as nat, 0, 0) == split_index(s@, max_width as nat, i as int, w as nat),
        decreases s.len() - i,
    {
        let cw = match char_display_width(s[i]) {
            Some(x) => x,
            None => 0,
        };
        assert(cw == char_columns(s@[i as int]));
        if w > 0 && w + cw > max_width {
            return i;
        }
        w = w + cw;
        i = i + 1;
    }
    s.len()
}

/// A wrapped line: its fragments.
pub type WrappedLine = Vec<Fragment>;

pub open spec fn wrapped_view(s: Seq<WrappedLine>) -> Seq<Seq<(Seq<char>, Style)>> {
    s.map_values(|l: WrappedLine| fragments_view(l@))
}

/// The wrapper's state: finished lines, the line being filled and the
/// columns it takes.
pub struct WrapState {
    pub lines: Seq<Seq<(Seq<char>, Style)>>,
    pub current: Seq<(Seq<char>, Style)>,
    pub used: nat,
}

pub open spec fn wrap_initial() -> WrapState {
    WrapState { lines: Seq::empty(), current: Seq::empty(), used: 0 }
}

/// The current line is finished and a new one started.
pub open spec fn new_line(st: WrapState) -> WrapState {
    WrapState { lines: st.lines.push(st.current), current: Seq::empty(), used: 0 }
}

/// Places a fragment's text: while it does not fit, the piece that fits
/// in the rest of the line (at least one character) ends the line.
pub open spec fn place_text(st: WrapState, rem: Seq<char>, style: Style, width: nat) -> WrapState
    decreases rem.len(), (if st.used > 0 { 1int } else { 0int }),
{
    if width == 0 {
        st
    } else if st.used + str_width(rem) > width {
        let space_left: nat = if st.used >= width { 0 } else { (width - st.used) as nat };
        if space_left == 0 {
            place_text(new_line(st), rem, style, width)
        } else {
            let k = split_index(rem, space_left, 0, 0);
            proof {
                lemma_split_index_bounds(rem, space_left, 0, 0);
            }
            if k == 0 {
                if st.used == 0 {
                    st
                } else {
                    place_text(new_line(st), rem, style, width)
                }
            } else {
                place_text(
                    WrapState { lines: st.lines.push(st.current.push((rem.take(k), style))), current: Seq::empty(), used: 0 },
                    rem.skip(k),
                    style,
                    width,
                )
            }
        }
    } else if rem.len() > 0 {
        WrapState { current: st.current.push((rem, style)), used: st.used + str_width(rem) as nat, ..st }
    } else {
        st
    }
}

pub open spec fn place_fragments(st: WrapState, frags: Seq<(Seq<char>, Style)>, width: nat) -> WrapState
    decreases frags.len(),
{
    if frags.len() == 0 {
        st
    } else {
        place_text(place_fragments(st, frags.drop_last(), width), frags.last().0, frags.last().1, width)
    }
}

/// The columns of a word's fragments.
pub open spec fn frags_width(f: Seq<(Seq<char>, Style)>) -> nat
    decreases f.len(),
{
    if f.len() == 0 {
        0
    } else {
        frags_width(f.drop_last()) + str_width(f.last().0) as nat
    }
}

/// A word goes on the current line after a space if it fits there, else
/// it starts a new line; its fragments are then placed.
pub open spec fn place_word(st: WrapState, frags: Seq<(Seq<char>, Style)>, width: nat) -> WrapState {
    let ww = frags_width(frags);
    let required = if st.current.len() == 0 { ww } else { ww + 1 };
    let st1 = if st.used + required > width && st.current.len() > 0 { new_line(st) } else { st };
    let st2 = if st1.current.len() > 0 {
        WrapState { current: st1.current.push((seq![' '], plain_style())), used: st1.used + 1, ..st1 }
    } else {
        st1
    };
    place_fragments(st2, frags, width)
}

pub open spec fn wrap_tokens(tokens: Seq<TokenView>, width: nat) -> WrapState
    decreases tokens.len(),
{
    if tokens.len() == 0 {
        wrap_initial()
    } else {
        let st = wrap_tokens(tokens.drop_last(), width);
        match tokens.last() {
            TokenView::Break => new_line(st),
            TokenView::Word(f) => place_word(st, f, width),
        }
    }
}

/// The lines of cell text wrapped to `width` columns: never none.
pub open spec fn wrapped_lines(runs: Seq<RunView>, width: nat) -> Seq<Seq<(Seq<char>, Style)>> {
    if width == 0 {
        seq![Seq::empty()]
    } else {
        let st = wrap_tokens(tokens_of(runs), width);
        let lines = if st.current.len() > 0 { st.lines.push(st.current) } else { st.lines };
        if lines.len() == 0 {
            seq![Seq::empty()]
        } else {
            lines
        }
    }
}

/// The characters of fragments.
pub open spec fn frag_chars(f: Seq<(Seq<char>, Style)>) -> nat
    decreases f.len(),
{
    if f.len() == 0 {
        0
    } else {
        frag_chars(f.drop_last()) + f.last().0.len()
    }
}

/// The characters of the words of a token sequence.
pub open spec fn token_chars(t: Seq<TokenView>) -> nat
    decreases t.len(),
{
    if t.len() == 0 {
        0
    } else {
        token_chars(t.drop_last()) + match t.last() {
            TokenView::Word(f) => frag_chars(f),
            TokenView::Break => 0,
        }
    }
}

/// The characters of the text of runs.
pub open spec fn runs_chars(r: Seq<RunView>) -> nat
    decreases r.len(),
{
    if r.len() == 0 {
        0
    } else {
        runs_chars(r.drop_last()) + r.last().text.len()
    }
}


/// All characters the tokenizer holds: in tokens, the open word and the
/// pending fragment.
pub open spec fn tok_total(st: TokState) -> nat {
    token_chars(st.tokens) + frag_chars(st.word) + st.buf.len()
}

proof fn lemma_frag_chars_push(f: Seq<(Seq<char>, Style)>, x: (Seq<char>, Style))
    ensures
        frag_chars(f.push(x)) == frag_chars(f) + x.0.len(),
{
    assert(f.push(x).drop_last() =~= f);
}

proof fn lemma_token_chars_push(t: Seq<TokenView>, x: TokenView)
    ensures
        token_chars(t.push(x)) == token_chars(t) + match x {
            TokenView::Word(f) => frag_chars(f),
            TokenView::Break => 0,
        },
{
    assert(t.push(x).drop_last() =~= t);
}

proof fn lemma_tok_char_total(st: TokState, c: char, style: Style)
    ensures
        tok_total(tok_char(st, c, style)) <= tok_total(st) + 1,
{
    let f = flush_buf(st, style);
    if st.buf.len() > 0 {
        lemma_frag_chars_push(st.word, (st.buf, style));
    }
    assert(tok_total(f) == tok_total(st) || c != '\n' && !is_white_space(c));
    let e = end_word(f);
    if f.word.len() > 0 {
        lemma_token_chars_push(f.tokens, TokenView::Word(f.word));
    }
    assert(tok_total(e) == tok_total(f));
    lemma_token_chars_push(e.tokens, TokenView::Break);
}

proof fn lemma_tok_chars_total(st: TokState, text: Seq<char>, style: Style)
    ensures
        tok_total(tok_chars(st, text, style)) <= tok_total(st) + text.len(),
    decreases text.len(),
{
    if text.len() > 0 {
        lemma_tok_chars_total(st, text.drop_last(), style);
        lemma_tok_char_total(tok_chars(st, text.drop_last(), style), text.last(), style);
    }
}

proof fn lemma_tok_runs_total(runs: Seq<RunView>)
    ensures
        tok_total(tok_runs(runs)) <= runs_chars(runs),
    decreases runs.len(),
{
    if runs.len() > 0 {
        let style = style_of_run(runs.last());
        lemma_tok_runs_total(runs.drop_last());
        let st = tok_chars(tok_runs(runs.drop_last()), runs.last().text, style);
        lemma_tok_chars_total(tok_runs(runs.drop_last()), runs.last().text, style);
        if st.buf.len() > 0 {
            lemma_frag_chars_push(st.word, (st.buf, style));
        }
    }
}

/// Tokenizing never adds characters.
pub proof fn lemma_tokens_chars(runs: Seq<RunView>)
    ensures
        token_chars(tokens_of(runs)) <= runs_chars(runs),
{
    lemma_tok_runs_total(runs);
    let st = tok_runs(runs);
    if st.word.len() > 0 {
        lemma_token_chars_push(st.tokens, TokenView::Word(st.word));
    }
}

/// A word holds no more characters than all the tokens.
pub proof fn lemma_word_chars(t: Seq<TokenView>, j: int)
    requires
        0 <= j < t.len(),
        t[j] is Word,
    ensures
        frag_chars(t[j]->Word_0) <= token_chars(t),
    decreases t.len(),
{
    if j < t.len() - 1 {
        lemma_word_chars(t.drop_last(), j);
    }
}

/// A fragment holds no more characters than its word.
pub proof fn lemma_fragment_chars(f: Seq<(Seq<char>, Style)>, i: int)
    requires
        0 <= i < f.len(),
    ensures
        f[i].0.len() <= frag_chars(f),
    decreases f.len(),
{
    if i < f.len() - 1 {
        lemma_fragment_chars(f.drop_last(), i);
    }
}

pub open spec fn wrap_state_of(result: Seq<WrappedLine>, current: Seq<Fragment>, cw: usize) -> WrapState {
    WrapState { lines: wrapped_view(result), current: fragments_view(current), used: cw as nat }
}

fn width_of_chars(s: &[char]) -> (r: usize)
    ensures
        r == str_width(s@),
        r <= 3 * s@.len(),
        s@.len() == 0 ==> r == 0,
        simple_width_text(s@) ==> r == columns_of(s@),
{
    let t = string_from_chars(s);
    assert(s@.len() == 0 ==> crate::width::plain_ascii(t@));
    str_display_width(t.as_str())
}

fn chars_range(s: &[char], from: usize, to: usize) -> (r: Vec<char>)
    requires
        from <= to <= s.len(),
    ensures
        r@ == s@.subrange(from as int, to as int),
{
    let mut r: Vec<char> = Vec::new();
    let mut i: usize = from;
    while i < to
        invariant
            from <= i <= to,
            to <= s.len(),
            r@ == s@.subrange(from as int, i as int),
        decreases to - i,
    {
        r.push(s[i]);
        i = i + 1;
        assert(r@ =~= s@.subrange(from as int, i as int));
    }
    r
}

struct Wrapper {
    result: Vec<WrappedLine>,
    current: WrappedLine,
    current_width: usize,
}

impl Wrapper {
    spec fn state(&self) -> WrapState {
        wrap_state_of(self.result@, self.current@, self.current_width)
    }

    fn finish_line(&mut self)
        ensures
            final(self).state() == new_line(old(self).state()),
            final(self).current_width == 0,
    {
        let mut line = Vec::new();
        std::mem::swap(&mut line, &mut self.current);
        let ghost old_result = self.result@;
        self.result.push(line);
        assert(wrapped_view(self.result@) =~= wrapped_view(old_result).push(fragments_view(line@)));
        self.current_width = 0;
        assert(fragments_view(self.current@) =~= Seq::<(Seq<char>, Style)>::empty());
    }

    fn push_fragment(&mut self, text: String, style: Style)
        ensures
            final(self).result == old(self).result,
            final(self).current_width == old(self).current_width,
            fragments_view(final(self).current@) == fragments_view(old(self).current@).push((text@, style)),
    {
        let ghost old_current = self.current@;
        self.current.push((text, style));
        assert(fragments_view(self.current@) =~= fragments_view(old_current).push((text@, style)));
    }

    /// Places one fragment's text on the lines.
    fn place_text(&mut self, text: &String, style: Style, width: usize)
        requires
            width > 0,
            old(self).current_width <= width,
            3 * text@.len() <= usize::MAX,
        ensures
            final(self).state() == place_text(old(self).state(), text@, style, width as nat),
            final(self).current_width <= width,
            simple_width_text(text@) && no_white_space(text@) && wrap_fits(old(self).state(), width as nat)
                ==> wrap_fits(final(self).state(), width as nat),
    {
        let chars = chars_of(text.as_str());
        let ghost target = place_text(self.state(), text@, style, width as nat);
        let ghost pr = simple_width_text(text@) && no_white_space(text@) && wrap_fits(self.state(), width as nat);
        let mut rem = chars_range(chars.as_slice(), 0, chars.len());
        assert(rem@ =~= text@);
        let mut rw = width_of_chars(rem.as_slice());
        while rw > width - self.current_width
            invariant
                width > 0,
                self.current_width <= width,
                rw == str_width(rem@),
                rw <= 3 * rem@.len(),
                rem@.len() <= text@.len(),
                3 * text@.len() <= usize::MAX,
                place_text(self.state(), rem@, style, width as nat) == target,
                pr ==> simple_width_text(rem@) && no_white_space(rem@) && rw == columns_of(rem@)
                    && wrap_fits(self.state(), width as nat),
            decreases rem@.len() * 2 + (if self.current_width > 0 { 1int } else { 0int }),
        {
            let space_left = width - self.current_width;
            if space_left == 0 {
                let ghost before = self.state();
                self.finish_line();
                proof {
                    if pr {
                        lemma_new_line_fits(before, width as nat);
                    }
                }
            } else {
                let k = split_at_width(rem.as_slice(), space_left);
                proof { lemma_split_index_bounds(rem@, space_left as nat, 0, 0); }
                if k == 0 {
                    assert(rem@.len() == 0);
                    assert(false);
                    self.finish_line();
                } else {
                    let part = chars_range(rem.as_slice(), 0, k);
                    assert(part@ =~= rem@.take(k as int));
                    let ghost before = self.state();
                    self.push_fragment(string_from_chars(part.as_slice()), style);
                    self.finish_line();
                    proof {
                        if pr {
                            lemma_simple_piece(rem@, space_left as nat);
                            assert(no_white_space(part@));
                            lemma_no_ws_not_separator(part@, style);
                            lemma_line_columns_push(before.current, (part@, style));
                            lemma_lines_fit_push(before.lines, before.current.push((part@, style)), width as nat);
                            assert(line_columns(Seq::<(Seq<char>, Style)>::empty()) == 0);
                        }
                    }
                    let rest = chars_range(rem.as_slice(), k, rem.len());
                    assert(rest@ =~= rem@.skip(k as int));
                    assert(pr ==> simple_width_text(rest@) && no_white_space(rest@)) by {
                        if pr {
                            assert forall|i: int| 0 <= i < rest@.len() implies simple_width_char(#[trigger] rest@[i]) by {
                                assert(rest@[i] == rem@[i + k]);
                            }
                        }
                    }
                    rem = rest;
                    rw = width_of_chars(rem.as_slice());
                }
            }
        }
        if rem.len() > 0 {
            let ghost before = self.state();
            self.push_fragment(string_from_chars(rem.as_slice()), style);
            self.current_width = self.current_width + rw;
            proof {
                if pr {
                    lemma_no_ws_not_separator(rem@, style);
                    lemma_line_columns_push(before.current, (rem@, style));
                }
            }
        }
    }
}

/// Wraps the text of runs into lines of at most `width` columns where
/// words allow it: words go on a line while they fit, a word wider than a
/// line is cut, line feeds force breaks.  There is always one line.  When
/// every character is white space or one that `unicode_width` counts the
/// same alone and inside a string, no line takes more than `width`
/// columns.
pub fn wrap_runs(runs: &[Run], width: usize) -> (r: Vec<WrappedLine>)
    requires
        3 * runs_chars(runs_view(runs@)) + 1 <= usize::MAX,
    ensures
        wrapped_view(r@) == wrapped_lines(runs_view(runs@), width as nat),
        simple_runs(runs_view(runs@)) ==> lines_fit(wrapped_view(r@), width as nat),
{
    let ghost simple = simple_runs(runs_view(runs@));
    if width == 0 {
        let mut r: Vec<WrappedLine> = Vec::new();
        let empty: WrappedLine = Vec::new();
        assert(fragments_view(empty@) =~= Seq::<(Seq<char>, Style)>::empty());
        r.push(empty);
        assert(wrapped_view(r@) =~= seq![Seq::<(Seq<char>, Style)>::empty()]);
        assert(line_columns(Seq::<(Seq<char>, Style)>::empty()) == 0);
        assert(lines_fit(wrapped_view(r@), 0));
        return r;
    }
    let tokens = tokenize_runs(runs);
    let ghost tv = tokens_view(tokens@);
    proof {
        lemma_tokens_chars(runs_view(runs@));
        lemma_tokens_nows(runs_view(runs@));
        if simple {
            lemma_tokens_simple(runs_view(runs@));
        }
    }
    let mut w = Wrapper { result: Vec::new(), current: Vec::new(), current_width: 0 };
    assert(wrapped_view(w.result@) =~= Seq::<Seq<(Seq<char>, Style)>>::empty());
    assert(fragments_view(w.current@) =~= Seq::<(Seq<char>, Style)>::empty());
    assert(line_columns(Seq::<(Seq<char>, Style)>::empty()) == 0);
    assert(tv.take(0) =~= Seq::<TokenView>::empty());
    let mut t: usize = 0;
    while t < tokens.len()
        invariant
            t <= tokens.len(),
            width > 0,
            tv == tokens_view(tokens@),
            token_chars(tv) <= runs_chars(runs_view(runs@)),
            3 * runs_chars(runs_view(runs@)) + 1 <= usize::MAX,
            w.current_width <= width,
            w.state() == wrap_tokens(tv.take(t as int), width as nat),
            tokens_no_white_space(tv),
            simple ==> tokens_simple(tv) && wrap_fits(w.state(), width as nat),
        decreases tokens.len() - t,
    {
        assert(tv.take(t + 1).drop_last() =~= tv.take(t as int));
        assert(tv.take(t + 1).last() == tokens@[t as int]@);
        assert(tv[t as int] == tokens@[t as int]@);
        match &tokens[t] {
            Token::Break => {
                let ghost before = w.state();
                w.finish_line();
                proof {
                    if simple {
                        lemma_new_line_fits(before, width as nat);
                    }
                }
            },
            Token::Word(fragments) => {
                let ghost fv = fragments_view(fragments@);
                assert(frags_no_white_space(fv));
                assert(simple ==> frags_simple(fv));
                proof { lemma_word_chars(tv, t as int); }
                let mut ww: usize = 0;
                let mut j: usize = 0;
                assert(fv.take(0) =~= Seq::<(Seq<char>, Style)>::empty());
                while j < fragments.len()
                    invariant
                        j <= fragments.len(),
                        fv == fragments_view(fragments@),
                        frag_chars(fv) <= runs_chars(runs_view(runs@)),
                        3 * runs_chars(runs_view(runs@)) + 1 <= usize::MAX,
                        ww == frags_width(fv.take(j as int)),
                        ww <= 3 * frag_chars(fv.take(j as int)),
                        frag_chars(fv.take(j as int)) <= frag_chars(fv),
                    decreases fragments.len() - j,
                {
                    assert(fv.take(j + 1).drop_last() =~= fv.take(j as int));
                    proof {
                        lemma_prefix_frag_chars(fv, j + 1);
                    }
                    let fw = str_display_width(fragments[j].0.as_str());
                    ww = ww + fw;
                    j = j + 1;
                }
                assert(fv.take(j as int) =~= fv);
                let required = if w.current.len() == 0 { ww } else { ww + 1 };
                if required > width - w.current_width && w.current.len() > 0 {
                    let ghost before = w.state();
                    w.finish_line();
                    proof {
                        if simple {
                            lemma_new_line_fits(before, width as nat);
                        }
                    }
                }
                if w.current.len() > 0 {
                    proof { reveal_strlit(" "); }
                    let sp = " ".to_owned();
                    assert(sp@ =~= seq![' ']);
                    let ghost before = w.state();
                    w.push_fragment(sp, Style::plain());
                    w.current_width = w.current_width + 1;
                    proof {
                        lemma_line_columns_push(before.current, (sp@, plain_style()));
                    }
                }
                let ghost st2 = w.state();
                let mut j: usize = 0;
                assert(fv.take(0) =~= Seq::<(Seq<char>, Style)>::empty());
                while j < fragments.len()
                    invariant
                        j <= fragments.len(),
                        width > 0,
                        fv == fragments_view(fragments@),
                        frag_chars(fv) <= runs_chars(runs_view(runs@)),
                        3 * runs_chars(runs_view(runs@)) + 1 <= usize::MAX,
                        w.current_width <= width,
                        w.state() == place_fragments(st2, fv.take(j as int), width as nat),
                        frags_no_white_space(fv),
                        simple ==> frags_simple(fv) && wrap_fits(w.state(), width as nat),
                    decreases fragments.len() - j,
                {
                    assert(fv.take(j + 1).drop_last() =~= fv.take(j as int));
                    assert(fv.take(j + 1).last() == fv[j as int]);
                    proof { lemma_fragment_chars(fv, j as int); }
                    w.place_text(&fragments[j].0, fragments[j].1, width);
                    j = j + 1;
                }
                assert(fv.take(j as int) =~= fv);
            },
        }
        t = t + 1;
    }
    assert(tv.take(t as int) =~= tv);
    if w.current.len() > 0 {
        let ghost before = w.state();
        w.finish_line();
        proof {
            if simple {
                lemma_new_line_fits(before, width as nat);
            }
        }
    }
    if w.result.len() == 0 {
        let empty: WrappedLine = Vec::new();
        assert(fragments_view(empty@) =~= Seq::<(Seq<char>, Style)>::empty());
        let ghost old_result = w.result@;
        w.result.push(empty);
        assert(wrapped_view(w.result@) =~= seq![Seq::<(Seq<char>, Style)>::empty()]);
        assert(line_columns(Seq::<(Seq<char>, Style)>::empty()) == 0);
        assert(lines_fit(wrapped_view(w.result@), width as nat));
    }
    w.result
}

proof fn lemma_prefix_frag_chars(f: Seq<(Seq<char>, Style)>, j: int)
    requires
        0 <= j <= f.len(),
    ensures
        frag_chars(f.take(j)) <= frag_chars(f),
    decreases f.len() - j,
{
    if j < f.len() {
        lemma_prefix_frag_chars(f, j + 1);
        assert(f.take(j + 1).drop_last() =~= f.take(j));
    } else {
        assert(f.take(j) =~= f);
    }
}

/// Wrapping always gives at least one line, however little text there is
/// and however narrow the column.
pub proof fn law_wrapped_lines_never_empty(runs: Seq<RunView>, width: nat)
    ensures
        wrapped_lines(runs, width).len() >= 1,
{
}

proof fn lemma_split_index_prefix(s: Seq<char>, max: nat, i: int, w: nat)
    requires
        0 <= i <= s.len(),
        w == columns_of(s.take(i)),
        i == 0 || w <= max || columns_of(s.take(i - 1)) == 0,
    ensures
        ({
            let k = split_index(s, max, i, w);
            &&& k == 0 || columns_of(s.take(k)) <= max || columns_of(s.take(k - 1)) == 0
            &&& k < s.len() ==> columns_of(s.take(k)) > 0 && columns_of(s.take(k)) + char_columns(s[k]) > max
        }),
    decreases s.len() - i,
{
    if i < s.len() && !(w > 0 && w + char_columns(s[i]) > max) {
        assert(s.take(i + 1).drop_last() =~= s.take(i));
        lemma_split_index_prefix(s, max, i + 1, w + char_columns(s[i]));
    } else if i >= s.len() {
        assert(s.take(s.len() as int) =~= s.take(i));
    }
}

/// The split keeps all characters: the first piece and the rest make the
/// text.  A non-empty text gives a non-empty first piece; the first piece
/// fits in `max` columns unless it is a single character that is too wide
/// (all characters before its last take no columns); and where text is
/// left, its first character would not have fit.
pub proof fn law_split_at_width(s: Seq<char>, max: nat)
    ensures
        ({
            let k = split_index(s, max, 0, 0);
            &&& 0 <= k <= s.len()
            &&& s.take(k) + s.skip(k) == s
            &&& s.len() > 0 ==> k >= 1
            &&& k == 0 || columns_of(s.take(k)) <= max || columns_of(s.take(k - 1)) == 0
            &&& k < s.len() ==> columns_of(s.take(k)) + char_columns(s[k]) > max
        }),
{
    lemma_split_index_bounds(s, max, 0, 0);
    assert(s.take(0) =~= Seq::<char>::empty());
    lemma_split_index_prefix(s, max, 0, 0);
    let k = split_index(s, max, 0, 0);
    assert(s.take(k) + s.skip(k) =~= s);
}

/// The line feeds of a text.
pub open spec fn count_newlines(s: Seq<char>) -> nat
    decreases s.len(),
{
    if s.len() == 0 {
        0
    } else {
        count_newlines(s.drop_last()) + if s.last() == '\n' { 1nat } else { 0nat }
    }
}

/// The line feeds of the runs' texts.
pub open spec fn runs_newlines(runs: Seq<RunView>) -> nat
    decreases runs.len(),
{
    if runs.len() == 0 {
        0
    } else {
        runs_newlines(runs.drop_last()) + count_newlines(runs.last().text)
    }
}

/// The break tokens.
pub open spec fn count_breaks(t: Seq<TokenView>) -> nat
    decreases t.len(),
{
    if t.len() == 0 {
        0
    } else {
        count_breaks(t.drop_last()) + if t.last() is Break { 1nat } else { 0nat }
    }
}

/// No fragment is empty.
pub open spec fn frags_nonempty(f: Seq<(Seq<char>, Style)>) -> bool {
    forall|j: int| 0 <= j < f.len() ==> (#[trigger] f[j]).0.len() > 0
}

pub open spec fn lines_frags_nonempty(ls: Seq<Seq<(Seq<char>, Style)>>) -> bool {
    forall|i: int| 0 <= i < ls.len() ==> frags_nonempty(#[trigger] ls[i])
}

pub open spec fn wrap_ok(st: WrapState) -> bool {
    lines_frags_nonempty(st.lines) && frags_nonempty(st.current)
}

proof fn lemma_count_breaks_push(t: Seq<TokenView>, x: TokenView)
    ensures
        count_breaks(t.push(x)) == count_breaks(t) + if x is Break { 1nat } else { 0nat },
{
    assert(t.push(x).drop_last() =~= t);
}

proof fn lemma_tok_char_breaks(st: TokState, c: char, style: Style)
    ensures
        count_breaks(tok_char(st, c, style).tokens) == count_breaks(st.tokens) + if c == '\n' { 1nat } else { 0nat },
{
    let f = flush_buf(st, style);
    let e = end_word(f);
    if f.word.len() > 0 {
        lemma_count_breaks_push(f.tokens, TokenView::Word(f.word));
    }
    lemma_count_breaks_push(e.tokens, TokenView::Break);
}

proof fn lemma_tok_chars_breaks(st: TokState, text: Seq<char>, style: Style)
    ensures
        count_breaks(tok_chars(st, text, style).tokens) == count_breaks(st.tokens) + count_newlines(text),
    decreases text.len(),
{
    if text.len() > 0 {
        lemma_tok_chars_breaks(st, text.drop_last(), style);
        lemma_tok_char_breaks(tok_chars(st, text.drop_last(), style), text.last(), style);
    }
}

proof fn lemma_tok_runs_breaks(runs: Seq<RunView>)
    ensures
        count_breaks(tok_runs(runs).tokens) == runs_newlines(runs),
    decreases runs.len(),
{
    if runs.len() > 0 {
        let style = style_of_run(runs.last());
        lemma_tok_runs_breaks(runs.drop_last());
        lemma_tok_chars_breaks(tok_runs(runs.drop_last()), runs.last().text, style);
    } else {
        assert(count_breaks(Seq::<TokenView>::empty()) == 0);
    }
}

/// Each line feed of the text is one break token.
pub proof fn lemma_tokens_breaks(runs: Seq<RunView>)
    ensures
        count_breaks(tokens_of(runs)) == runs_newlines(runs),
{
    lemma_tok_runs_breaks(runs);
    let st = tok_runs(runs);
    if st.word.len() > 0 {
        lemma_count_breaks_push(st.tokens, TokenView::Word(st.word));
    }
}

proof fn lemma_new_line_ok(st: WrapState)
    requires
        wrap_ok(st),
    ensures
        wrap_ok(new_line(st)),
        new_line(st).lines.len() == st.lines.len() + 1,
{
    assert(frags_nonempty(Seq::<(Seq<char>, Style)>::empty()));
}

proof fn lemma_place_text_ok(st: WrapState, rem: Seq<char>, style: Style, width: nat)
    requires
        wrap_ok(st),
    ensures
        wrap_ok(place_text(st, rem, style, width)),
        place_text(st, rem, style, width).lines.len() >= st.lines.len(),
    decreases rem.len(), (if st.used > 0 { 1int } else { 0int }),
{
    if width == 0 {
    } else if st.used + str_width(rem) > width {
        let space_left: nat = if st.used >= width { 0 } else { (width - st.used) as nat };
        if space_left == 0 {
            lemma_new_line_ok(st);
            lemma_place_text_ok(new_line(st), rem, style, width);
        } else {
            let k = split_index(rem, space_left, 0, 0);
            lemma_split_index_bounds(rem, space_left, 0, 0);
            if k == 0 {
                if st.used == 0 {
                } else {
                    lemma_new_line_ok(st);
                    lemma_place_text_ok(new_line(st), rem, style, width);
                }
            } else {
                let line = st.current.push((rem.take(k), style));
                assert(frags_nonempty(line));
                let st2 = WrapState { lines: st.lines.push(line), current: Seq::empty(), used: 0 };
                assert(frags_nonempty(Seq::<(Seq<char>, Style)>::empty()));
                assert(wrap_ok(st2));
                lemma_place_text_ok(st2, rem.skip(k), style, width);
            }
        }
    } else if rem.len() > 0 {
        assert(frags_nonempty(st.current.push((rem, style))));
    }
}

proof fn lemma_place_fragments_ok(st: WrapState, frags: Seq<(Seq<char>, Style)>, width: nat)
    requires
        wrap_ok(st),
    ensures
        wrap_ok(place_fragments(st, frags, width)),
        place_fragments(st, frags, width).lines.len() >= st.lines.len(),
    decreases frags.len(),
{
    if frags.len() > 0 {
        lemma_place_fragments_ok(st, frags.drop_last(), width);
        lemma_place_text_ok(place_fragments(st, frags.drop_last(), width), frags.last().0, frags.last().1, width);
    }
}

proof fn lemma_wrap_tokens_ok(tokens: Seq<TokenView>, width: nat)
    ensures
        wrap_ok(wrap_tokens(tokens, width)),
        wrap_tokens(tokens, width).lines.len() >= count_breaks(tokens),
    decreases tokens.len(),
{
    if tokens.len() == 0 {
        assert(frags_nonempty(Seq::<(Seq<char>, Style)>::empty()));
        assert(lines_frags_nonempty(Seq::<Seq<(Seq<char>, Style)>>::empty()));
    } else {
        lemma_wrap_tokens_ok(tokens.drop_last(), width);
        let st = wrap_tokens(tokens.drop_last(), width);
        match tokens.last() {
            TokenView::Break => {
                lemma_new_line_ok(st);
            },
            TokenView::Word(f) => {
                let ww = frags_width(f);
                let required = if st.current.len() == 0 { ww } else { ww + 1 };
                let st1 = if st.used + required > width && st.current.len() > 0 { new_line(st) } else { st };
                if st.used + required > width && st.current.len() > 0 {
                    lemma_new_line_ok(st);
                }
                let st2 = if st1.current.len() > 0 {
                    WrapState { current: st1.current.push((seq![' '], plain_style())), used: st1.used + 1, ..st1 }
                } else {
                    st1
                };
                if st1.current.len() > 0 {
                    assert(frags_nonempty(st1.current.push((seq![' '], plain_style()))));
                }
                lemma_place_fragments_ok(st2, f, width);
            },
        }
    }
}

/// Wrapping in a column of no width gives one empty line.  In a wider
/// column there are at least as many lines as the text has line feeds, and
/// no fragment of a line is empty.
pub proof fn law_wrapped_lines_shape(runs: Seq<RunView>, width: nat)
    ensures
        width == 0 ==> wrapped_lines(runs, width) == seq![Seq::<(Seq<char>, Style)>::empty()],
        width > 0 ==> wrapped_lines(runs, width).len() >= runs_newlines(runs),
        lines_frags_nonempty(wrapped_lines(runs, width)),
{
    if width > 0 {
        lemma_tokens_breaks(runs);
        lemma_wrap_tokens_ok(tokens_of(runs), width);
        let st = wrap_tokens(tokens_of(runs), width);
        if st.current.len() > 0 {
            assert(lines_frags_nonempty(st.lines.push(st.current)));
        }
    }
    assert(frags_nonempty(Seq::<(Seq<char>, Style)>::empty()));
    assert(lines_frags_nonempty(seq![Seq::<(Seq<char>, Style)>::empty()]));
}

/// A piece of plain text as the tokenizer sees it: a word or a line feed.
pub enum TextItem {
    WordText(Seq<char>),
    LineFeed,
}

/// Splitting plain text: the items so far and the word being read.
pub struct SplitState {
    pub items: Seq<TextItem>,
    pub cur: Seq<char>,
}

pub open spec fn close_word(st: SplitState) -> SplitState {
    if st.cur.len() > 0 {
        SplitState { items: st.items.push(TextItem::WordText(st.cur)), cur: Seq::empty() }
    } else {
        st
    }
}

pub open spec fn split_char(st: SplitState, c: char) -> SplitState {
    if c == '\n' {
        let s1 = close_word(st);
        SplitState { items: s1.items.push(TextItem::LineFeed), ..s1 }
    } else if is_white_space(c) {
        close_word(st)
    } else {
        SplitState { cur: st.cur.push(c), ..st }
    }
}

pub open spec fn split_chars(st: SplitState, text: Seq<char>) -> SplitState
    decreases text.len(),
{
    if text.len() == 0 {
        st
    } else {
        split_char(split_chars(st, text.drop_last()), text.last())
    }
}

/// The words of a text (its maximal runs of characters that are not white
/// space) and its line feeds, in order.
pub open spec fn text_items(s: Seq<char>) -> Seq<TextItem> {
    close_word(split_chars(SplitState { items: Seq::empty(), cur: Seq::empty() }, s)).items
}

/// The text of a word's fragments.
pub open spec fn frags_text(f: Seq<(Seq<char>, Style)>) -> Seq<char>
    decreases f.len(),
{
    if f.len() == 0 {
        Seq::empty()
    } else {
        frags_text(f.drop_last()) + f.last().0
    }
}

pub open spec fn token_item(t: TokenView) -> TextItem {
    match t {
        TokenView::Word(f) => TextItem::WordText(frags_text(f)),
        TokenView::Break => TextItem::LineFeed,
    }
}

pub open spec fn tokens_items(t: Seq<TokenView>) -> Seq<TextItem> {
    t.map_values(|x: TokenView| token_item(x))
}

/// Every word token has fragments, none of them empty.
pub open spec fn words_nonempty(t: Seq<TokenView>) -> bool {
    forall|i: int| 0 <= i < t.len() ==> (#[trigger] t[i] matches TokenView::Word(f) ==> f.len() > 0 && frags_nonempty(f))
}

pub open spec fn tok_good(st: TokState) -> bool {
    words_nonempty(st.tokens) && frags_nonempty(st.word)
}

pub open spec fn tok_abstract(st: TokState) -> SplitState {
    SplitState { items: tokens_items(st.tokens), cur: frags_text(st.word) + st.buf }
}

proof fn lemma_frags_text_nonempty(f: Seq<(Seq<char>, Style)>)
    requires
        frags_nonempty(f),
    ensures
        (frags_text(f).len() > 0) == (f.len() > 0),
    decreases f.len(),
{
    if f.len() > 0 {
        assert(f[f.len() - 1].0.len() > 0);
    }
}

proof fn lemma_flush_buf_abstract(st: TokState, style: Style)
    requires
        tok_good(st),
    ensures
        tok_good(flush_buf(st, style)),
        tok_abstract(flush_buf(st, style)) == tok_abstract(st),
        flush_buf(st, style).buf.len() == 0 || st.buf.len() == 0,
        flush_buf(st, style).tokens == st.tokens,
{
    if st.buf.len() > 0 {
        let w = st.word.push((st.buf, style));
        assert(w.drop_last() =~= st.word);
        assert(frags_nonempty(w));
        assert(frags_text(w) + Seq::<char>::empty() =~= frags_text(st.word) + st.buf);
    }
}

proof fn lemma_end_word_abstract(st: TokState)
    requires
        tok_good(st),
        st.buf.len() == 0,
    ensures
        tok_good(end_word(st)),
        tok_abstract(end_word(st)) == close_word(tok_abstract(st)),
        end_word(st).buf.len() == 0,
{
    lemma_frags_text_nonempty(st.word);
    assert(frags_text(st.word) + st.buf =~= frags_text(st.word));
    if st.word.len() > 0 {
        let t = st.tokens.push(TokenView::Word(st.word));
        assert(tokens_items(t) =~= tokens_items(st.tokens).push(TextItem::WordText(frags_text(st.word))));
        assert(words_nonempty(t));
        assert(frags_nonempty(Seq::<(Seq<char>, Style)>::empty()));
        assert(frags_text(Seq::<(Seq<char>, Style)>::empty()) + Seq::<char>::empty() =~= Seq::<char>::empty());
    }
}

proof fn lemma_tok_char_abstract(st: TokState, c: char, style: Style)
    requires
        tok_good(st),
    ensures
        tok_good(tok_char(st, c, style)),
        tok_abstract(tok_char(st, c, style)) == split_char(tok_abstract(st), c),
{
    if c == '\n' || is_white_space(c) {
        lemma_flush_buf_abstract(st, style);
        let f = flush_buf(st, style);
        lemma_end_word_abstract(f);
        if c == '\n' {
            let e = end_word(f);
            let t = e.tokens.push(TokenView::Break);
            assert(tokens_items(t) =~= tokens_items(e.tokens).push(TextItem::LineFeed));
            assert(words_nonempty(t));
        }
    } else {
        assert(frags_text(st.word) + st.buf.push(c) =~= (frags_text(st.word) + st.buf).push(c));
    }
}

proof fn lemma_tok_chars_abstract(st: TokState, text: Seq<char>, style: Style)
    requires
        tok_good(st),
    ensures
        tok_good(tok_chars(st, text, style)),
        tok_abstract(tok_chars(st, text, style)) == split_chars(tok_abstract(st), text),
    decreases text.len(),
{
    if text.len() > 0 {
        lemma_tok_chars_abstract(st, text.drop_last(), style);
        lemma_tok_char_abstract(tok_chars(st, text.drop_last(), style), text.last(), style);
    }
}

proof fn lemma_split_chars_add(st: SplitState, a: Seq<char>, b: Seq<char>)
    ensures
        split_chars(st, a + b) == split_chars(split_chars(st, a), b),
    decreases b.len(),
{
    if b.len() == 0 {
        assert(a + b =~= a);
    } else {
        lemma_split_chars_add(st, a, b.drop_last());
        assert((a + b).drop_last() =~= a + b.drop_last());
        assert((a + b).last() == b.last());
    }
}

proof fn lemma_tok_runs_abstract(runs: Seq<RunView>)
    ensures
        tok_good(tok_runs(runs)),
        tok_abstract(tok_runs(runs)) == split_chars(SplitState { items: Seq::empty(), cur: Seq::empty() }, concat_text(runs)),
    decreases runs.len(),
{
    let empty = SplitState { items: Seq::empty(), cur: Seq::empty() };
    if runs.len() == 0 {
        assert(words_nonempty(Seq::<TokenView>::empty()));
        assert(frags_nonempty(Seq::<(Seq<char>, Style)>::empty()));
        assert(tokens_items(Seq::<TokenView>::empty()) =~= Seq::<TextItem>::empty());
        assert(frags_text(Seq::<(Seq<char>, Style)>::empty()) + Seq::<char>::empty() =~= Seq::<char>::empty());
    } else {
        let style = style_of_run(runs.last());
        lemma_tok_runs_abstract(runs.drop_last());
        let st = tok_runs(runs.drop_last());
        lemma_tok_chars_abstract(st, runs.last().text, style);
        lemma_flush_buf_abstract(tok_chars(st, runs.last().text, style), style);
        lemma_split_chars_add(empty, concat_text(runs.drop_last()), runs.last().text);
    }
}

/// The tokenizer finds the text's words and line feeds: taken over all the
/// runs' text, every maximal run of characters that are not white space
/// is one word and every line feed one break, in order (other white space
/// only separates words); a word holds at least one fragment and no
/// fragment is empty.
pub proof fn law_tokens_are_words_and_breaks(runs: Seq<RunView>)
    ensures
        tokens_items(tokens_of(runs)) == text_items(concat_text(runs)),
        words_nonempty(tokens_of(runs)),
{
    lemma_tok_runs_abstract(runs);
    let st = tok_runs(runs);
    lemma_end_word_abstract(st);
}

/// The text without its white space.
pub open spec fn without_white_space(s: Seq<char>) -> Seq<char>
    decreases s.len(),
{
    if s.len() == 0 {
        Seq::empty()
    } else {
        without_white_space(s.drop_last()) + if is_white_space(s.last()) { Seq::empty() } else { seq![s.last()] }
    }
}

/// The text holds no white space.
pub open spec fn no_white_space(s: Seq<char>) -> bool {
    forall|i: int| 0 <= i < s.len() ==> !is_white_space(#[trigger] s[i])
}

/// The space the wrapper puts between two words on a line.
pub open spec fn is_separator(f: (Seq<char>, Style)) -> bool {
    f == (seq![' '], plain_style())
}

/// The text of a line's fragments, separators left out.
pub open spec fn line_text(f: Seq<(Seq<char>, Style)>) -> Seq<char>
    decreases f.len(),
{
    if f.len() == 0 {
        Seq::empty()
    } else {
        line_text(f.drop_last()) + if is_separator(f.last()) { Seq::empty() } else { f.last().0 }
    }
}

/// The text of all lines, one after another, separators left out.
pub open spec fn lines_text(ls: Seq<Seq<(Seq<char>, Style)>>) -> Seq<char>
    decreases ls.len(),
{
    if ls.len() == 0 {
        Seq::empty()
    } else {
        lines_text(ls.drop_last()) + line_text(ls.last())
    }
}

pub open spec fn wrap_text(st: WrapState) -> Seq<char> {
    lines_text(st.lines) + line_text(st.current)
}

/// The text of the word tokens, one after another.
pub open spec fn words_text(t: Seq<TokenView>) -> Seq<char>
    decreases t.len(),
{
    if t.len() == 0 {
        Seq::empty()
    } else {
        words_text(t.drop_last()) + match t.last() {
            TokenView::Word(f) => frags_text(f),
            TokenView::Break => Seq::empty(),
        }
    }
}

/// Every fragment of every word holds no white space.
pub open spec fn frags_no_white_space(f: Seq<(Seq<char>, Style)>) -> bool {
    forall|j: int| 0 <= j < f.len() ==> no_white_space((#[trigger] f[j]).0)
}

pub open spec fn tokens_no_white_space(t: Seq<TokenView>) -> bool {
    forall|i: int| 0 <= i < t.len() ==> (#[trigger] t[i] matches TokenView::Word(f) ==> frags_no_white_space(f))
}

pub open spec fn tok_no_white_space(st: TokState) -> bool {
    tokens_no_white_space(st.tokens) && frags_no_white_space(st.word) && no_white_space(st.buf)
}

proof fn lemma_tok_char_nows(st: TokState, c: char, style: Style)
    requires
        tok_no_white_space(st),
    ensures
        tok_no_white_space(tok_char(st, c, style)),
{
    let f = flush_buf(st, style);
    assert(frags_no_white_space(f.word)) by {
        if st.buf.len() > 0 {
            assert forall|j: int| 0 <= j < f.word.len() implies no_white_space((#[trigger] f.word[j]).0) by {
                if j < st.word.len() {
                    assert(f.word[j] == st.word[j]);
                }
            }
        }
    }
    assert(no_white_space(Seq::<char>::empty()));
    assert(no_white_space(f.buf));
    let e = end_word(f);
    assert(frags_no_white_space(Seq::<(Seq<char>, Style)>::empty()));
    assert(tokens_no_white_space(e.tokens));
    assert(tokens_no_white_space(e.tokens.push(TokenView::Break)));
    if !(c == '\n' || is_white_space(c)) {
        assert(no_white_space(st.buf.push(c)));
    }
}

proof fn lemma_tok_chars_nows(st: TokState, text: Seq<char>, style: Style)
    requires
        tok_no_white_space(st),
    ensures
        tok_no_white_space(tok_chars(st, text, style)),
    decreases text.len(),
{
    if text.len() > 0 {
        lemma_tok_chars_nows(st, text.drop_last(), style);
        lemma_tok_char_nows(tok_chars(st, text.drop_last(), style), text.last(), style);
    }
}

proof fn lemma_flush_nows(st: TokState, style: Style)
    requires
        tok_no_white_space(st),
    ensures
        tok_no_white_space(flush_buf(st, style)),
{
    let f = flush_buf(st, style);
    if st.buf.len() > 0 {
        assert forall|j: int| 0 <= j < f.word.len() implies no_white_space((#[trigger] f.word[j]).0) by {
            if j < st.word.len() {
                assert(f.word[j] == st.word[j]);
            }
        }
        assert(no_white_space(Seq::<char>::empty()));
    }
}

proof fn lemma_tok_runs_nows(runs: Seq<RunView>)
    ensures
        tok_no_white_space(tok_runs(runs)),
    decreases runs.len(),
{
    if runs.len() == 0 {
        assert(no_white_space(Seq::<char>::empty()));
        assert(frags_no_white_space(Seq::<(Seq<char>, Style)>::empty()));
        assert(tokens_no_white_space(Seq::<TokenView>::empty()));
    } else {
        let style = style_of_run(runs.last());
        lemma_tok_runs_nows(runs.drop_last());
        lemma_tok_chars_nows(tok_runs(runs.drop_last()), runs.last().text, style);
        lemma_flush_nows(tok_chars(tok_runs(runs.drop_last()), runs.last().text, style), style);
    }
}

proof fn lemma_tokens_nows(runs: Seq<RunView>)
    ensures
        tokens_no_white_space(tokens_of(runs)),
{
    lemma_tok_runs_nows(runs);
    let st = tok_runs(runs);
    if st.word.len() > 0 {
        assert(tokens_no_white_space(st.tokens.push(TokenView::Word(st.word))));
    }
}

/// The words' text of a token sequence is the text's characters without
/// white space.
pub open spec fn items_text(items: Seq<TextItem>) -> Seq<char>
    decreases items.len(),
{
    if items.len() == 0 {
        Seq::empty()
    } else {
        items_text(items.drop_last()) + match items.last() {
            TextItem::WordText(w) => w,
            TextItem::LineFeed => Seq::empty(),
        }
    }
}

proof fn lemma_items_text_push(items: Seq<TextItem>, x: TextItem)
    ensures
        items_text(items.push(x)) == items_text(items) + match x {
            TextItem::WordText(w) => w,
            TextItem::LineFeed => Seq::empty(),
        },
{
    assert(items.push(x).drop_last() =~= items);
}

proof fn lemma_close_word_text(st: SplitState)
    ensures
        items_text(close_word(st).items) + close_word(st).cur == items_text(st.items) + st.cur,
{
    if st.cur.len() > 0 {
        lemma_items_text_push(st.items, TextItem::WordText(st.cur));
        assert(items_text(st.items) + st.cur + Seq::<char>::empty() =~= items_text(st.items) + st.cur);
    }
}

proof fn lemma_split_chars_text(text: Seq<char>)
    ensures
        ({
            let st = split_chars(SplitState { items: Seq::empty(), cur: Seq::empty() }, text);
            items_text(st.items) + st.cur == without_white_space(text)
        }),
    decreases text.len(),
{
    let st0 = SplitState { items: Seq::empty(), cur: Seq::empty() };
    if text.len() == 0 {
        assert(items_text(Seq::<TextItem>::empty()) + Seq::<char>::empty() =~= Seq::<char>::empty());
    } else {
        lemma_split_chars_text(text.drop_last());
        let st = split_chars(st0, text.drop_last());
        let c = text.last();
        lemma_close_word_text(st);
        if c == '\n' {
            let s1 = close_word(st);
            lemma_items_text_push(s1.items, TextItem::LineFeed);
            assert(is_white_space(c));
            assert(items_text(s1.items) + Seq::<char>::empty() + s1.cur =~= items_text(s1.items) + s1.cur);
            assert(without_white_space(text.drop_last()) + Seq::<char>::empty() =~= without_white_space(text.drop_last()));
        } else if is_white_space(c) {
            assert(without_white_space(text.drop_last()) + Seq::<char>::empty() =~= without_white_space(text.drop_last()));
        } else {
            assert(items_text(st.items) + st.cur.push(c) =~= items_text(st.items) + st.cur + seq![c]);
        }
    }
}

proof fn lemma_frags_text_push(f: Seq<(Seq<char>, Style)>, x: (Seq<char>, Style))
    ensures
        frags_text(f.push(x)) == frags_text(f) + x.0,
{
    assert(f.push(x).drop_last() =~= f);
}

proof fn lemma_words_text_items(t: Seq<TokenView>)
    ensures
        items_text(tokens_items(t)) == words_text(t),
    decreases t.len(),
{
    if t.len() > 0 {
        lemma_words_text_items(t.drop_last());
        assert(tokens_items(t) =~= tokens_items(t.drop_last()).push(token_item(t.last())));
        lemma_items_text_push(tokens_items(t.drop_last()), token_item(t.last()));
    } else {
        assert(tokens_items(t) =~= Seq::<TextItem>::empty());
    }
}

/// The words of the tokens hold exactly the text's characters that are
/// not white space, in order.
proof fn lemma_tokens_words_text(runs: Seq<RunView>)
    ensures
        words_text(tokens_of(runs)) == without_white_space(concat_text(runs)),
{
    law_tokens_are_words_and_breaks(runs);
    lemma_words_text_items(tokens_of(runs));
    let text = concat_text(runs);
    lemma_split_chars_text(text);
    lemma_close_word_text(split_chars(SplitState { items: Seq::empty(), cur: Seq::empty() }, text));
    let c = close_word(split_chars(SplitState { items: Seq::empty(), cur: Seq::empty() }, text));
    assert(c.cur.len() == 0);
    assert(items_text(c.items) + c.cur =~= items_text(c.items));
}

proof fn lemma_line_text_push(f: Seq<(Seq<char>, Style)>, x: (Seq<char>, Style))
    ensures
        line_text(f.push(x)) == line_text(f) + if is_separator(x) { Seq::empty() } else { x.0 },
{
    assert(f.push(x).drop_last() =~= f);
}

proof fn lemma_lines_text_push(ls: Seq<Seq<(Seq<char>, Style)>>, l: Seq<(Seq<char>, Style)>)
    ensures
        lines_text(ls.push(l)) == lines_text(ls) + line_text(l),
{
    assert(ls.push(l).drop_last() =~= ls);
}

proof fn lemma_new_line_text(st: WrapState)
    ensures
        wrap_text(new_line(st)) == wrap_text(st),
{
    lemma_lines_text_push(st.lines, st.current);
    assert(lines_text(st.lines.push(st.current)) + Seq::<char>::empty() =~= lines_text(st.lines) + line_text(st.current));
}

proof fn lemma_no_ws_not_separator(t: Seq<char>, style: Style)
    requires
        no_white_space(t),
        t.len() > 0,
    ensures
        !is_separator((t, style)),
{
    if is_separator((t, style)) {
        assert(t[0] == ' ');
    }
}

proof fn lemma_place_text_text(st: WrapState, rem: Seq<char>, style: Style, width: nat)
    requires
        width > 0,
        no_white_space(rem),
    ensures
        wrap_text(place_text(st, rem, style, width)) == wrap_text(st) + rem,
    decreases rem.len(), (if st.used > 0 { 1int } else { 0int }),
{
    if st.used + str_width(rem) > width {
        let space_left: nat = if st.used >= width { 0 } else { (width - st.used) as nat };
        if space_left == 0 {
            lemma_new_line_text(st);
            lemma_place_text_text(new_line(st), rem, style, width);
        } else {
            let k = split_index(rem, space_left, 0, 0);
            lemma_split_index_bounds(rem, space_left, 0, 0);
            if k == 0 {
                assert(rem.len() == 0);
                assert(wrap_text(st) + rem =~= wrap_text(st));
                if st.used != 0 {
                    lemma_new_line_text(st);
                    lemma_place_text_text(new_line(st), rem, style, width);
                }
            } else {
                let piece = rem.take(k);
                assert(no_white_space(piece));
                lemma_no_ws_not_separator(piece, style);
                let line = st.current.push((piece, style));
                lemma_line_text_push(st.current, (piece, style));
                lemma_lines_text_push(st.lines, line);
                let st2 = WrapState { lines: st.lines.push(line), current: Seq::empty(), used: 0 };
                assert(wrap_text(st2) =~= wrap_text(st) + piece);
                let rest = rem.skip(k);
                assert(no_white_space(rest));
                lemma_place_text_text(st2, rest, style, width);
                assert(piece + rest =~= rem);
                assert(wrap_text(st) + piece + rest =~= wrap_text(st) + rem);
            }
        }
    } else if rem.len() > 0 {
        lemma_no_ws_not_separator(rem, style);
        lemma_line_text_push(st.current, (rem, style));
        assert(wrap_text(place_text(st, rem, style, width)) =~= wrap_text(st) + rem);
    } else {
        assert(wrap_text(st) + rem =~= wrap_text(st));
    }
}

proof fn lemma_place_fragments_text(st: WrapState, frags: Seq<(Seq<char>, Style)>, width: nat)
    requires
        width > 0,
        frags_no_white_space(frags),
    ensures
        wrap_text(place_fragments(st, frags, width)) == wrap_text(st) + frags_text(frags),
    decreases frags.len(),
{
    if frags.len() == 0 {
        assert(wrap_text(st) + frags_text(frags) =~= wrap_text(st));
    } else {
        let p = frags.drop_last();
        assert forall|j: int| 0 <= j < p.len() implies no_white_space((#[trigger] p[j]).0) by {
            assert(p[j] == frags[j]);
        }
        lemma_place_fragments_text(st, p, width);
        assert(frags[frags.len() - 1] == frags.last());
        lemma_place_text_text(place_fragments(st, p, width), frags.last().0, frags.last().1, width);
        assert(wrap_text(st) + frags_text(p) + frags.last().0 =~= wrap_text(st) + frags_text(frags));
    }
}

proof fn lemma_wrap_tokens_text(tokens: Seq<TokenView>, width: nat)
    requires
        width > 0,
        tokens_no_white_space(tokens),
    ensures
        wrap_text(wrap_tokens(tokens, width)) == words_text(tokens),
    decreases tokens.len(),
{
    if tokens.len() == 0 {
        assert(wrap_text(wrap_initial()) =~= Seq::<char>::empty());
    } else {
        let p = tokens.drop_last();
        assert forall|i: int| 0 <= i < p.len() implies (#[trigger] p[i] matches TokenView::Word(f) ==> frags_no_white_space(f)) by {
            assert(p[i] == tokens[i]);
        }
        lemma_wrap_tokens_text(p, width);
        let st = wrap_tokens(p, width);
        assert(tokens[tokens.len() - 1] == tokens.last());
        match tokens.last() {
            TokenView::Break => {
                lemma_new_line_text(st);
                assert(words_text(tokens) =~= words_text(p));
            },
            TokenView::Word(f) => {
                let ww = frags_width(f);
                let required = if st.current.len() == 0 { ww } else { ww + 1 };
                let st1 = if st.used + required > width && st.current.len() > 0 { new_line(st) } else { st };
                if st.used + required > width && st.current.len() > 0 {
                    lemma_new_line_text(st);
                }
                let st2 = if st1.current.len() > 0 {
                    WrapState { current: st1.current.push((seq![' '], plain_style())), used: st1.used + 1, ..st1 }
                } else {
                    st1
                };
                if st1.current.len() > 0 {
                    lemma_line_text_push(st1.current, (seq![' '], plain_style()));
                    assert(wrap_text(st2) =~= wrap_text(st1));
                }
                lemma_place_fragments_text(st2, f, width);
            },
        }
    }
}

/// In a column of some width, the wrapped lines hold the runs' text
/// without its white space: their fragments, taken in order with the
/// spaces put between words left out, spell out exactly the characters of
/// the runs that are not white space.
pub proof fn law_wrapped_text_is_kept(runs: Seq<RunView>, width: nat)
    requires
        width > 0,
    ensures
        lines_text(wrapped_lines(runs, width)) == without_white_space(concat_text(runs)),
{
    lemma_tokens_nows(runs);
    lemma_tokens_words_text(runs);
    lemma_wrap_tokens_text(tokens_of(runs), width);
    let st = wrap_tokens(tokens_of(runs), width);
    let lines = if st.current.len() > 0 { st.lines.push(st.current) } else { st.lines };
    if st.current.len() > 0 {
        lemma_lines_text_push(st.lines, st.current);
    } else {
        assert(line_text(st.current) =~= Seq::<char>::empty());
        assert(wrap_text(st) =~= lines_text(st.lines));
    }
    if lines.len() == 0 {
        let one = seq![Seq::<(Seq<char>, Style)>::empty()];
        assert(one.drop_last() =~= Seq::<Seq<(Seq<char>, Style)>>::empty());
        assert(one.last() =~= Seq::<(Seq<char>, Style)>::empty());
        assert(lines_text(one.drop_last()) =~= Seq::<char>::empty());
        assert(line_text(one.last()) =~= Seq::<char>::empty());
        assert(lines_text(one) =~= Seq::<char>::empty());
        assert(lines_text(lines) =~= Seq::<char>::empty());
    }
}


/// Every character is white space or one that `unicode_width` counts
/// the same alone and inside a string.
pub open spec fn simple_text(s: Seq<char>) -> bool {
    forall|i: int| 0 <= i < s.len() ==> is_white_space(#[trigger] s[i]) || simple_width_char(s[i])
}

/// The text of every run is simple.
pub open spec fn simple_runs(runs: Seq<RunView>) -> bool {
    forall|k: int| 0 <= k < runs.len() ==> simple_text((#[trigger] runs[k]).text)
}

pub open spec fn frags_simple(f: Seq<(Seq<char>, Style)>) -> bool {
    forall|j: int| 0 <= j < f.len() ==> simple_width_text((#[trigger] f[j]).0)
}

pub open spec fn tokens_simple(t: Seq<TokenView>) -> bool {
    forall|i: int| 0 <= i < t.len() ==> (#[trigger] t[i] matches TokenView::Word(f) ==> frags_simple(f))
}

pub open spec fn tok_simple(st: TokState) -> bool {
    tokens_simple(st.tokens) && frags_simple(st.word) && simple_width_text(st.buf)
}

proof fn lemma_flush_simple(st: TokState, style: Style)
    requires
        tok_simple(st),
    ensures
        tok_simple(flush_buf(st, style)),
{
    let f = flush_buf(st, style);
    if st.buf.len() > 0 {
        assert forall|j: int| 0 <= j < f.word.len() implies simple_width_text((#[trigger] f.word[j]).0) by {
            if j < st.word.len() {
                assert(f.word[j] == st.word[j]);
            }
        }
        assert(simple_width_text(Seq::<char>::empty()));
    }
}

proof fn lemma_tok_char_simple(st: TokState, c: char, style: Style)
    requires
        tok_simple(st),
        is_white_space(c) || simple_width_char(c),
    ensures
        tok_simple(tok_char(st, c, style)),
{
    lemma_flush_simple(st, style);
    let f = flush_buf(st, style);
    let e = end_word(f);
    assert(frags_simple(Seq::<(Seq<char>, Style)>::empty()));
    assert(tokens_simple(e.tokens));
    assert(tokens_simple(e.tokens.push(TokenView::Break)));
    if !(c == '\n' || is_white_space(c)) {
        assert(simple_width_text(st.buf.push(c)));
    }
}

proof fn lemma_tok_chars_simple(st: TokState, text: Seq<char>, style: Style)
    requires
        tok_simple(st),
        simple_text(text),
    ensures
        tok_simple(tok_chars(st, text, style)),
    decreases text.len(),
{
    if text.len() > 0 {
        assert(simple_text(text.drop_last()));
        assert(text.last() == text[text.len() - 1]);
        lemma_tok_chars_simple(st, text.drop_last(), style);
        lemma_tok_char_simple(tok_chars(st, text.drop_last(), style), text.last(), style);
    }
}

proof fn lemma_tok_runs_simple(runs: Seq<RunView>)
    requires
        simple_runs(runs),
    ensures
        tok_simple(tok_runs(runs)),
    decreases runs.len(),
{
    if runs.len() == 0 {
        assert(simple_width_text(Seq::<char>::empty()));
        assert(frags_simple(Seq::<(Seq<char>, Style)>::empty()));
        assert(tokens_simple(Seq::<TokenView>::empty()));
    } else {
        let style = style_of_run(runs.last());
        assert(simple_runs(runs.drop_last()));
        assert(simple_text(runs[runs.len() - 1].text));
        lemma_tok_runs_simple(runs.drop_last());
        lemma_tok_chars_simple(tok_runs(runs.drop_last()), runs.last().text, style);
        lemma_flush_simple(tok_chars(tok_runs(runs.drop_last()), runs.last().text, style), style);
    }
}

/// Simple text gives words of simple characters only.
pub proof fn lemma_tokens_simple(runs: Seq<RunView>)
    requires
        simple_runs(runs),
    ensures
        tokens_simple(tokens_of(runs)),
{
    lemma_tok_runs_simple(runs);
    let st = tok_runs(runs);
    if st.word.len() > 0 {
        assert(tokens_simple(st.tokens.push(TokenView::Word(st.word))));
    }
}

/// The columns of a line, counted character by character, the space put
/// between two words taking one.
pub open spec fn line_columns(l: Seq<(Seq<char>, Style)>) -> nat
    decreases l.len(),
{
    if l.len() == 0 {
        0
    } else {
        line_columns(l.drop_last()) + if is_separator(l.last()) { 1 } else { columns_of(l.last().0) }
    }
}

/// Every line takes at most `width` columns.
pub open spec fn lines_fit(ls: Seq<Seq<(Seq<char>, Style)>>, width: nat) -> bool {
    forall|i: int| 0 <= i < ls.len() ==> line_columns(#[trigger] ls[i]) <= width
}

/// The finished lines fit and the current line's columns are the columns
/// counted for it.
pub open spec fn wrap_fits(st: WrapState, width: nat) -> bool {
    lines_fit(st.lines, width) && line_columns(st.current) == st.used && st.used <= width
}

proof fn lemma_line_columns_push(l: Seq<(Seq<char>, Style)>, x: (Seq<char>, Style))
    ensures
        line_columns(l.push(x)) == line_columns(l) + if is_separator(x) { 1 } else { columns_of(x.0) },
{
    assert(l.push(x).drop_last() =~= l);
}

proof fn lemma_lines_fit_push(ls: Seq<Seq<(Seq<char>, Style)>>, l: Seq<(Seq<char>, Style)>, width: nat)
    requires
        lines_fit(ls, width),
        line_columns(l) <= width,
    ensures
        lines_fit(ls.push(l), width),
{
    assert forall|i: int| 0 <= i < ls.push(l).len() implies line_columns(#[trigger] ls.push(l)[i]) <= width by {
        if i < ls.len() {
            assert(ls.push(l)[i] == ls[i]);
        }
    }
}

proof fn lemma_new_line_fits(st: WrapState, width: nat)
    requires
        wrap_fits(st, width),
    ensures
        wrap_fits(new_line(st), width),
{
    lemma_lines_fit_push(st.lines, st.current, width);
    assert(line_columns(Seq::<(Seq<char>, Style)>::empty()) == 0);
}

/// The piece that the split takes from a simple text fits in `max`
/// columns (`max` at least one).
proof fn lemma_simple_piece(s: Seq<char>, max: nat)
    requires
        simple_width_text(s),
        max > 0,
    ensures
        columns_of(s.take(split_index(s, max, 0, 0))) <= max,
{
    law_split_at_width(s, max);
    let k = split_index(s, max, 0, 0);
    if k > 0 && columns_of(s.take(k)) > max {
        assert(s.take(k).drop_last() =~= s.take(k - 1));
        assert(s.take(k).last() == s[k - 1]);
        assert(simple_width_char(s[k - 1]));
    }
}

/// The characters of a text, each with a style.
pub open spec fn tagged(s: Seq<char>, st: Style) -> Seq<(char, Style)> {
    s.map_values(|c: char| (c, st))
}

/// The styled characters of fragments, one after another.
pub open spec fn frags_tagged(f: Seq<(Seq<char>, Style)>) -> Seq<(char, Style)>
    decreases f.len(),
{
    if f.len() == 0 {
        Seq::empty()
    } else {
        frags_tagged(f.drop_last()) + tagged(f.last().0, f.last().1)
    }
}

/// The styled characters of the word tokens.
pub open spec fn words_tagged(t: Seq<TokenView>) -> Seq<(char, Style)>
    decreases t.len(),
{
    if t.len() == 0 {
        Seq::empty()
    } else {
        words_tagged(t.drop_last()) + match t.last() {
            TokenView::Word(f) => frags_tagged(f),
            TokenView::Break => Seq::empty(),
        }
    }
}

/// The styled characters of a line, separators left out.
pub open spec fn line_tagged(f: Seq<(Seq<char>, Style)>) -> Seq<(char, Style)>
    decreases f.len(),
{
    if f.len() == 0 {
        Seq::empty()
    } else {
        line_tagged(f.drop_last()) + if is_separator(f.last()) { Seq::empty() } else { tagged(f.last().0, f.last().1) }
    }
}

/// The styled characters of all lines, separators left out.
pub open spec fn lines_tagged(ls: Seq<Seq<(Seq<char>, Style)>>) -> Seq<(char, Style)>
    decreases ls.len(),
{
    if ls.len() == 0 {
        Seq::empty()
    } else {
        lines_tagged(ls.drop_last()) + line_tagged(ls.last())
    }
}

pub open spec fn wrap_tagged(st: WrapState) -> Seq<(char, Style)> {
    lines_tagged(st.lines) + line_tagged(st.current)
}

/// The characters of a text that are not white space, each with a style.
pub open spec fn kept_tagged(text: Seq<char>, st: Style) -> Seq<(char, Style)>
    decreases text.len(),
{
    if text.len() == 0 {
        Seq::empty()
    } else {
        kept_tagged(text.drop_last(), st) + if text.last() == '\n' || is_white_space(text.last()) {
            Seq::empty()
        } else {
            seq![(text.last(), st)]
        }
    }
}

/// The characters of the runs that are not white space, each in the
/// style of its run.
pub open spec fn runs_tagged(runs: Seq<RunView>) -> Seq<(char, Style)>
    decreases runs.len(),
{
    if runs.len() == 0 {
        Seq::empty()
    } else {
        runs_tagged(runs.drop_last()) + kept_tagged(runs.last().text, style_of_run(runs.last()))
    }
}

pub open spec fn tok_tagged(st: TokState, style: Style) -> Seq<(char, Style)> {
    words_tagged(st.tokens) + frags_tagged(st.word) + tagged(st.buf, style)
}

proof fn lemma_tagged_add(a: Seq<char>, b: Seq<char>, st: Style)
    ensures
        tagged(a + b, st) == tagged(a, st) + tagged(b, st),
{
    assert(tagged(a + b, st) =~= tagged(a, st) + tagged(b, st));
}

proof fn lemma_flush_tagged(st: TokState, style: Style)
    ensures
        tok_tagged(flush_buf(st, style), style) == tok_tagged(st, style),
        flush_buf(st, style).buf.len() == 0,
        flush_buf(st, style).tokens == st.tokens,
{
    if st.buf.len() > 0 {
        let w = st.word.push((st.buf, style));
        assert(w.drop_last() =~= st.word);
        assert(tagged(Seq::<char>::empty(), style) =~= Seq::<(char, Style)>::empty());
        assert(tok_tagged(flush_buf(st, style), style) =~= tok_tagged(st, style));
    }
}

proof fn lemma_end_word_tagged(st: TokState, style: Style)
    requires
        st.buf.len() == 0,
    ensures
        tok_tagged(end_word(st), style) == tok_tagged(st, style),
        end_word(st).buf.len() == 0,
        end_word(st).word.len() == 0,
{
    if st.word.len() > 0 {
        let t = st.tokens.push(TokenView::Word(st.word));
        assert(t.drop_last() =~= st.tokens);
        assert(frags_tagged(Seq::<(Seq<char>, Style)>::empty()) =~= Seq::<(char, Style)>::empty());
        assert(tok_tagged(end_word(st), style) =~= tok_tagged(st, style));
    }
}

proof fn lemma_tok_char_tagged(st: TokState, c: char, style: Style)
    ensures
        tok_tagged(tok_char(st, c, style), style) == tok_tagged(st, style) + if c == '\n' || is_white_space(c) {
            Seq::empty()
        } else {
            seq![(c, style)]
        },
{
    if c == '\n' || is_white_space(c) {
        lemma_flush_tagged(st, style);
        lemma_end_word_tagged(flush_buf(st, style), style);
        let s1 = end_word(flush_buf(st, style));
        if c == '\n' {
            let t = s1.tokens.push(TokenView::Break);
            assert(t.drop_last() =~= s1.tokens);
        }
        assert(tok_tagged(st, style) + Seq::<(char, Style)>::empty() =~= tok_tagged(st, style));
    } else {
        assert(tagged(st.buf.push(c), style) =~= tagged(st.buf, style) + seq![(c, style)]);
        assert(tok_tagged(tok_char(st, c, style), style) =~= tok_tagged(st, style) + seq![(c, style)]);
    }
}

proof fn lemma_tok_chars_tagged(st: TokState, text: Seq<char>, style: Style)
    ensures
        tok_tagged(tok_chars(st, text, style), style) == tok_tagged(st, style) + kept_tagged(text, style),
    decreases text.len(),
{
    if text.len() == 0 {
        assert(tok_tagged(st, style) + kept_tagged(text, style) =~= tok_tagged(st, style));
    } else {
        lemma_tok_chars_tagged(st, text.drop_last(), style);
        lemma_tok_char_tagged(tok_chars(st, text.drop_last(), style), text.last(), style);
        let tail: Seq<(char, Style)> = if text.last() == '\n' || is_white_space(text.last()) {
            Seq::empty()
        } else {
            seq![(text.last(), style)]
        };
        assert(tok_tagged(st, style) + kept_tagged(text.drop_last(), style) + tail =~= tok_tagged(st, style) + kept_tagged(text, style));
    }
}

proof fn lemma_tok_runs_tagged(runs: Seq<RunView>, style: Style)
    ensures
        tok_runs(runs).buf.len() == 0,
        tok_tagged(tok_runs(runs), style) == runs_tagged(runs),
    decreases runs.len(),
{
    if runs.len() == 0 {
        assert(tok_tagged(tok_initial(), style) =~= Seq::<(char, Style)>::empty());
    } else {
        let rs = style_of_run(runs.last());
        let prev = tok_runs(runs.drop_last());
        lemma_tok_runs_tagged(runs.drop_last(), rs);
        assert(tagged(Seq::<char>::empty(), rs) =~= Seq::<(char, Style)>::empty());
        assert(tagged(Seq::<char>::empty(), style) =~= Seq::<(char, Style)>::empty());
        lemma_tok_chars_tagged(prev, runs.last().text, rs);
        lemma_flush_tagged(tok_chars(prev, runs.last().text, rs), rs);
        let fin = tok_runs(runs);
        assert(tok_tagged(fin, style) == tok_tagged(fin, rs));
    }
}

proof fn lemma_tokens_tagged(runs: Seq<RunView>)
    ensures
        words_tagged(tokens_of(runs)) == runs_tagged(runs),
{
    let style = plain_style();
    lemma_tok_runs_tagged(runs, style);
    lemma_end_word_tagged(tok_runs(runs), style);
    let e = end_word(tok_runs(runs));
    assert(frags_tagged(Seq::<(Seq<char>, Style)>::empty()) =~= Seq::<(char, Style)>::empty());
    assert(tagged(Seq::<char>::empty(), style) =~= Seq::<(char, Style)>::empty());
    assert(tok_tagged(e, style) =~= words_tagged(e.tokens));
}

proof fn lemma_line_tagged_push(f: Seq<(Seq<char>, Style)>, x: (Seq<char>, Style))
    ensures
        line_tagged(f.push(x)) == line_tagged(f) + if is_separator(x) { Seq::empty() } else { tagged(x.0, x.1) },
{
    assert(f.push(x).drop_last() =~= f);
}

proof fn lemma_new_line_tagged(st: WrapState)
    ensures
        wrap_tagged(new_line(st)) == wrap_tagged(st),
{
    assert(st.lines.push(st.current).drop_last() =~= st.lines);
    assert(wrap_tagged(new_line(st)) =~= wrap_tagged(st));
}

proof fn lemma_place_text_tagged(st: WrapState, rem: Seq<char>, style: Style, width: nat)
    requires
        width > 0,
        no_white_space(rem),
    ensures
        wrap_tagged(place_text(st, rem, style, width)) == wrap_tagged(st) + tagged(rem, style),
    decreases rem.len(), (if st.used > 0 { 1int } else { 0int }),
{
    if st.used + str_width(rem) > width {
        let space_left: nat = if st.used >= width { 0 } else { (width - st.used) as nat };
        if space_left == 0 {
            lemma_new_line_tagged(st);
            lemma_place_text_tagged(new_line(st), rem, style, width);
        } else {
            let k = split_index(rem, space_left, 0, 0);
            lemma_split_index_bounds(rem, space_left, 0, 0);
            if k == 0 {
                assert(rem.len() == 0);
                assert(wrap_tagged(st) + tagged(rem, style) =~= wrap_tagged(st));
                if st.used != 0 {
                    lemma_new_line_tagged(st);
                    lemma_place_text_tagged(new_line(st), rem, style, width);
                }
            } else {
                let piece = rem.take(k);
                assert(no_white_space(piece));
                lemma_no_ws_not_separator(piece, style);
                let line = st.current.push((piece, style));
                lemma_line_tagged_push(st.current, (piece, style));
                assert(st.lines.push(line).drop_last() =~= st.lines);
                let st2 = WrapState { lines: st.lines.push(line), current: Seq::empty(), used: 0 };
                assert(wrap_tagged(st2) =~= wrap_tagged(st) + tagged(piece, style));
                let rest = rem.skip(k);
                assert(no_white_space(rest));
                lemma_place_text_tagged(st2, rest, style, width);
                assert(piece + rest =~= rem);
                lemma_tagged_add(piece, rest, style);
                assert(wrap_tagged(st) + tagged(piece, style) + tagged(rest, style) =~= wrap_tagged(st) + tagged(rem, style));
            }
        }
    } else if rem.len() > 0 {
        lemma_no_ws_not_separator(rem, style);
        lemma_line_tagged_push(st.current, (rem, style));
        assert(wrap_tagged(place_text(st, rem, style, width)) =~= wrap_tagged(st) + tagged(rem, style));
    } else {
        assert(wrap_tagged(st) + tagged(rem, style) =~= wrap_tagged(st));
    }
}

proof fn lemma_place_fragments_tagged(st: WrapState, frags: Seq<(Seq<char>, Style)>, width: nat)
    requires
        width > 0,
        frags_no_white_space(frags),
    ensures
        wrap_tagged(place_fragments(st, frags, width)) == wrap_tagged(st) + frags_tagged(frags),
    decreases frags.len(),
{
    if frags.len() == 0 {
        assert(wrap_tagged(st) + frags_tagged(frags) =~= wrap_tagged(st));
    } else {
        let p = frags.drop_last();
        assert forall|j: int| 0 <= j < p.len() implies no_white_space((#[trigger] p[j]).0) by {
            assert(p[j] == frags[j]);
        }
        lemma_place_fragments_tagged(st, p, width);
        assert(frags[frags.len() - 1] == frags.last());
        lemma_place_text_tagged(place_fragments(st, p, width), frags.last().0, frags.last().1, width);
        assert(wrap_tagged(st) + frags_tagged(p) + tagged(frags.last().0, frags.last().1) =~= wrap_tagged(st) + frags_tagged(frags));
    }
}

proof fn lemma_wrap_tokens_tagged(tokens: Seq<TokenView>, width: nat)
    requires
        width > 0,
        tokens_no_white_space(tokens),
    ensures
        wrap_tagged(wrap_tokens(tokens, width)) == words_tagged(tokens),
    decreases tokens.len(),
{
    if tokens.len() == 0 {
        assert(wrap_tagged(wrap_initial()) =~= Seq::<(char, Style)>::empty());
    } else {
        let p = tokens.drop_last();
        assert forall|i: int| 0 <= i < p.len() implies (#[trigger] p[i] matches TokenView::Word(f) ==> frags_no_white_space(f)) by {
            assert(p[i] == tokens[i]);
        }
        lemma_wrap_tokens_tagged(p, width);
        let st = wrap_tokens(p, width);
        assert(tokens[tokens.len() - 1] == tokens.last());
        match tokens.last() {
            TokenView::Break => {
                lemma_new_line_tagged(st);
                assert(words_tagged(tokens) =~= words_tagged(p));
            },
            TokenView::Word(f) => {
                let ww = frags_width(f);
                let required = if st.current.len() == 0 { ww } else { ww + 1 };
                let st1 = if st.used + required > width && st.current.len() > 0 { new_line(st) } else { st };
                if st.used + required > width && st.current.len() > 0 {
                    lemma_new_line_tagged(st);
                }
                let st2 = if st1.current.len() > 0 {
                    WrapState { current: st1.current.push((seq![' '], plain_style())), used: st1.used + 1, ..st1 }
                } else {
                    st1
                };
                if st1.current.len() > 0 {
                    lemma_line_tagged_push(st1.current, (seq![' '], plain_style()));
                    assert(wrap_tagged(st2) =~= wrap_tagged(st1));
                }
                lemma_place_fragments_tagged(st2, f, width);
            },
        }
    }
}

/// In a column of some width, every character of the runs that is not
/// white space comes out once, in order, in a fragment that carries the
/// style of its run; the wrapped lines hold nothing else but the spaces
/// put between words.
pub proof fn law_wrapped_styles_follow_runs(runs: Seq<RunView>, width: nat)
    requires
        width > 0,
    ensures
        lines_tagged(wrapped_lines(runs, width)) == runs_tagged(runs),
{
    lemma_tokens_nows(runs);
    lemma_tokens_tagged(runs);
    lemma_wrap_tokens_tagged(tokens_of(runs), width);
    let st = wrap_tokens(tokens_of(runs), width);
    let lines = if st.current.len() > 0 { st.lines.push(st.current) } else { st.lines };
    if st.current.len() > 0 {
        lemma_new_line_tagged(st);
        assert(line_tagged(Seq::<(Seq<char>, Style)>::empty()) =~= Seq::<(char, Style)>::empty());
        assert(lines_tagged(lines) =~= wrap_tagged(st));
    } else {
        assert(line_tagged(st.current) =~= Seq::<(char, Style)>::empty());
        assert(wrap_tagged(st) =~= lines_tagged(st.lines));
    }
    if lines.len() == 0 {
        let one = seq![Seq::<(Seq<char>, Style)>::empty()];
        assert(one.drop_last() =~= Seq::<Seq<(Seq<char>, Style)>>::empty());
        assert(one.last() =~= Seq::<(Seq<char>, Style)>::empty());
        assert(lines_tagged(one.drop_last()) =~= Seq::<(char, Style)>::empty());
        assert(line_tagged(one.last()) =~= Seq::<(char, Style)>::empty());
        assert(lines_tagged(one) =~= Seq::<(char, Style)>::empty());
        assert(lines_tagged(lines) =~= Seq::<(char, Style)>::empty());
    }
}

} // verus!
