//! The mathematical model of the lexer: character classes, scanning
//! functions over `Seq<char>`, and the token streams that a line and a
//! whole buffer denote. The executable lexer is proved to return exactly
//! these values.

use vstd::prelude::*;

use crate::lexer::Close;
use crate::lexer::Open;
use crate::lexer::TokenView;

verus! {

/// Intra-line spacing: the only two indentation/separator characters.
pub open spec fn is_space_char(c: char) -> bool {
    c == ' ' || c == '\t'
}

/// Line terminator characters.
pub open spec fn is_newline_char(c: char) -> bool {
    c == '\n' || c == '\r'
}

/// A character that may stand in a simple (escape-free) tag: anything but
/// spacing, newlines, quotes, colons and parentheses. A backslash counts.
pub open spec fn is_simple_char(c: char) -> bool {
    !is_space_char(c) && !is_newline_char(c) && c != '"' && c != ':' && c != '(' && c != ')'
}

/// A character that a bare escaped tag may contain without escaping:
/// simple, and not the escape character itself.
pub open spec fn is_bare_char(c: char) -> bool {
    is_simple_char(c) && c != '\\'
}

/// What `\c` decodes to: `\n` and `\t` give the control characters,
/// `\h` gives the fixed snowman glyph, and any other character stands
/// for itself.
pub open spec fn escape_value(c: char) -> char {
    if c == 'n' {
        '\n'
    } else if c == 't' {
        '\t'
    } else if c == 'h' {
        '\u{2603}'
    } else {
        c
    }
}

/// End of the run of spacing characters starting at `i`.
pub open spec fn spacing_end(s: Seq<char>, i: int) -> int
    decreases s.len() - i,
{
    if i < 0 || i >= s.len() || !is_space_char(s[i]) {
        i
    } else {
        spacing_end(s, i + 1)
    }
}

/// End of the run of simple-tag characters starting at `i`.
pub open spec fn simple_end(s: Seq<char>, i: int) -> int
    decreases s.len() - i,
{
    if i < 0 || i >= s.len() || !is_simple_char(s[i]) {
        i
    } else {
        simple_end(s, i + 1)
    }
}

/// End of the run of newline characters starting at `i`.
pub open spec fn newline_run_end(s: Seq<char>, i: int) -> int
    decreases s.len() - i,
{
    if i < 0 || i >= s.len() || !is_newline_char(s[i]) {
        i
    } else {
        newline_run_end(s, i + 1)
    }
}

/// Whether position `i` begins a well-formed escape: a backslash with a
/// non-newline character after it.
pub open spec fn is_escape_at(s: Seq<char>, i: int) -> bool {
    s[i] == '\\' && i + 1 < s.len() && !is_newline_char(s[i + 1])
}

/// End of escaped tag content starting at `i`: stops at an unescaped
/// quote, at a newline, at the end of input, or at a dangling backslash
/// (one followed by a newline or nothing).
pub open spec fn esc_end(s: Seq<char>, i: int) -> int
    decreases s.len() - i,
{
    if i < 0 || i >= s.len() || s[i] == '"' || is_newline_char(s[i]) {
        i
    } else if s[i] == '\\' {
        if is_escape_at(s, i) {
            esc_end(s, i + 2)
        } else {
            i
        }
    } else {
        esc_end(s, i + 1)
    }
}

/// The decoded escaped tag content starting at `i` (see [`esc_end`]).
pub open spec fn esc_text(s: Seq<char>, i: int) -> Seq<char>
    decreases s.len() - i,
{
    if i < 0 || i >= s.len() || s[i] == '"' || is_newline_char(s[i]) {
        Seq::empty()
    } else if s[i] == '\\' {
        if is_escape_at(s, i) {
            seq![escape_value(s[i + 1])] + esc_text(s, i + 2)
        } else {
            Seq::empty()
        }
    } else {
        seq![s[i]] + esc_text(s, i + 1)
    }
}

/// End of the raw text of a trailing unterminated quote: everything up
/// to the end of the line, escapes included; a dangling backslash is
/// taken literally.
pub open spec fn trailq_end(s: Seq<char>, i: int) -> int
    decreases s.len() - i,
{
    if i < 0 || i >= s.len() || is_newline_char(s[i]) {
        i
    } else if is_escape_at(s, i) {
        trailq_end(s, i + 2)
    } else {
        trailq_end(s, i + 1)
    }
}

/// The decoded text of a trailing unterminated quote (see [`trailq_end`]).
pub open spec fn trailq_text(s: Seq<char>, i: int) -> Seq<char>
    decreases s.len() - i,
{
    if i < 0 || i >= s.len() || is_newline_char(s[i]) {
        Seq::empty()
    } else if is_escape_at(s, i) {
        seq![escape_value(s[i + 1])] + trailq_text(s, i + 2)
    } else {
        seq![s[i]] + trailq_text(s, i + 1)
    }
}

/// Whether the quote at position `i` is closed by another quote before
/// the end of the line.
pub open spec fn quote_closes(s: Seq<char>, i: int) -> bool {
    esc_end(s, i + 1) < s.len() && s[esc_end(s, i + 1)] == '"'
}

/// Whether position `i` starts a tag: a simple character, or a quote
/// that closes before the end of the line.
pub open spec fn is_tag_start(s: Seq<char>, i: int) -> bool {
    0 <= i < s.len() && (is_simple_char(s[i]) || (s[i] == '"' && quote_closes(s, i)))
}

/// Whether the bare-escaped scan starting at `i` reaches a stopping
/// character without meeting a dangling backslash. When it does not, the
/// tag falls back to the raw simple form.
pub open spec fn bare_ok(s: Seq<char>, i: int) -> bool
    decreases s.len() - i,
{
    if i < 0 || i >= s.len() {
        true
    } else if is_bare_char(s[i]) {
        bare_ok(s, i + 1)
    } else if s[i] == '\\' {
        if is_escape_at(s, i) {
            bare_ok(s, i + 2)
        } else {
            false
        }
    } else {
        true
    }
}

/// End of the bare-escaped scan starting at `i`; stops where [`bare_ok`]
/// stops, dangling backslash included.
pub open spec fn bare_end(s: Seq<char>, i: int) -> int
    decreases s.len() - i,
{
    if i < 0 || i >= s.len() {
        i
    } else if is_bare_char(s[i]) {
        bare_end(s, i + 1)
    } else if s[i] == '\\' && is_escape_at(s, i) {
        bare_end(s, i + 2)
    } else {
        i
    }
}

/// The decoded text of the bare-escaped scan starting at `i`.
pub open spec fn bare_text(s: Seq<char>, i: int) -> Seq<char>
    decreases s.len() - i,
{
    if i < 0 || i >= s.len() {
        Seq::empty()
    } else if is_bare_char(s[i]) {
        seq![s[i]] + bare_text(s, i + 1)
    } else if s[i] == '\\' && is_escape_at(s, i) {
        seq![escape_value(s[i + 1])] + bare_text(s, i + 2)
    } else {
        Seq::empty()
    }
}

pub proof fn lemma_spacing_end_bounds(s: Seq<char>, i: int)
    requires
        0 <= i <= s.len(),
    ensures
        i <= spacing_end(s, i) <= s.len(),
    decreases s.len() - i,
{
    if i < s.len() && is_space_char(s[i]) {
        lemma_spacing_end_bounds(s, i + 1);
    }
}

pub proof fn lemma_simple_end_bounds(s: Seq<char>, i: int)
    requires
        0 <= i <= s.len(),
    ensures
        i <= simple_end(s, i) <= s.len(),
    decreases s.len() - i,
{
    if i < s.len() && is_simple_char(s[i]) {
        lemma_simple_end_bounds(s, i + 1);
    }
}

pub proof fn lemma_newline_run_end_bounds(s: Seq<char>, i: int)
    requires
        0 <= i <= s.len(),
    ensures
        i <= newline_run_end(s, i) <= s.len(),
    decreases s.len() - i,
{
    if i < s.len() && is_newline_char(s[i]) {
        lemma_newline_run_end_bounds(s, i + 1);
    }
}

pub proof fn lemma_esc_end_bounds(s: Seq<char>, i: int)
    requires
        0 <= i <= s.len(),
    ensures
        i <= esc_end(s, i) <= s.len(),
    decreases s.len() - i,
{
    if i < s.len() && s[i] != '"' && !is_newline_char(s[i]) {
        if s[i] == '\\' {
            if is_escape_at(s, i) {
                lemma_esc_end_bounds(s, i + 2);
            }
        } else {
            lemma_esc_end_bounds(s, i + 1);
        }
    }
}

pub proof fn lemma_trailq_end_bounds(s: Seq<char>, i: int)
    requires
        0 <= i <= s.len(),
    ensures
        i <= trailq_end(s, i) <= s.len(),
        trailq_end(s, i) == s.len() || is_newline_char(s[trailq_end(s, i)]),
    decreases s.len() - i,
{
    if i < s.len() && !is_newline_char(s[i]) {
        if is_escape_at(s, i) {
            lemma_trailq_end_bounds(s, i + 2);
        } else {
            lemma_trailq_end_bounds(s, i + 1);
        }
    }
}

pub proof fn lemma_bare_end_bounds(s: Seq<char>, i: int)
    requires
        0 <= i <= s.len(),
    ensures
        i <= bare_end(s, i) <= s.len(),
    decreases s.len() - i,
{
    if i < s.len() {
        if is_bare_char(s[i]) {
            lemma_bare_end_bounds(s, i + 1);
        } else if s[i] == '\\' && is_escape_at(s, i) {
            lemma_bare_end_bounds(s, i + 2);
        }
    }
}

/// Where the tag starting at `i` ends. A closed quote takes the escaped
/// span and both quotes; otherwise the bare-escaped scan decides, with
/// the raw simple run as the fallback when that scan meets a dangling
/// backslash.
pub open spec fn a_tag_end(s: Seq<char>, i: int) -> int {
    if s[i] == '"' {
        esc_end(s, i + 1) + 1
    } else if bare_ok(s, i) {
        bare_end(s, i)
    } else {
        simple_end(s, i)
    }
}

/// The decoded text of the tag starting at `i` (see [`a_tag_end`]).
/// The simple fallback keeps the raw characters undecoded.
pub open spec fn a_tag_text(s: Seq<char>, i: int) -> Seq<char> {
    if s[i] == '"' {
        esc_text(s, i + 1)
    } else if bare_ok(s, i) {
        bare_text(s, i)
    } else {
        s.subrange(i, simple_end(s, i))
    }
}

pub proof fn lemma_a_tag_end_bounds(s: Seq<char>, i: int)
    requires
        is_tag_start(s, i),
    ensures
        i < a_tag_end(s, i) <= s.len(),
{
    if s[i] == '"' {
        lemma_esc_end_bounds(s, i + 1);
    } else if bare_ok(s, i) {
        if is_bare_char(s[i]) {
            lemma_bare_end_bounds(s, i + 1);
        } else {
            lemma_bare_end_bounds(s, i + 2);
        }
    } else {
        lemma_simple_end_bounds(s, i + 1);
    }
}

/// Where the run of tags starting at `i` ends: tags separated by
/// optional spacing, first-match-wins, the spacing before a non-tag left
/// unconsumed.
pub open spec fn multitag_end(s: Seq<char>, i: int) -> int
    decreases s.len() - i,
    when 0 <= i <= s.len()
{
    let j = spacing_end(s, i);
    if is_tag_start(s, j) {
        proof {
            lemma_spacing_end_bounds(s, i);
            lemma_a_tag_end_bounds(s, j);
        }
        multitag_end(s, a_tag_end(s, j))
    } else {
        i
    }
}

/// The decoded texts of the run of tags starting at `i`.
pub open spec fn multitag_texts(s: Seq<char>, i: int) -> Seq<Seq<char>>
    decreases s.len() - i,
    when 0 <= i <= s.len()
{
    let j = spacing_end(s, i);
    if is_tag_start(s, j) {
        proof {
            lemma_spacing_end_bounds(s, i);
            lemma_a_tag_end_bounds(s, j);
        }
        seq![a_tag_text(s, j)] + multitag_texts(s, a_tag_end(s, j))
    } else {
        Seq::empty()
    }
}

pub proof fn lemma_multitag_end_bounds(s: Seq<char>, i: int)
    requires
        0 <= i <= s.len(),
    ensures
        i <= multitag_end(s, i) <= s.len(),
        is_tag_start(s, spacing_end(s, i)) ==> i < multitag_end(s, i),
    decreases s.len() - i,
{
    let j = spacing_end(s, i);
    lemma_spacing_end_bounds(s, i);
    if is_tag_start(s, j) {
        lemma_a_tag_end_bounds(s, j);
        lemma_multitag_end_bounds(s, a_tag_end(s, j));
    }
}

/// Where the body of a line ends: at the terminating newline, or at the
/// end of the input.
pub open spec fn line_end(s: Seq<char>, i: int) -> int
    decreases s.len() - i,
    when 0 <= i <= s.len()
{
    if i >= s.len() || is_newline_char(s[i]) {
        i
    } else if s[i] == '(' || s[i] == ')' || s[i] == ':' {
        line_end(s, i + 1)
    } else if is_tag_start(s, spacing_end(s, i)) {
        proof {
            lemma_multitag_end_bounds(s, i);
        }
        line_end(s, multitag_end(s, i))
    } else if is_space_char(s[i]) {
        proof {
            lemma_spacing_end_bounds(s, i + 1);
        }
        line_end(s, spacing_end(s, i))
    } else if s[i] == '"' {
        trailq_end(s, i + 1)
    } else {
        i
    }
}

/// The decoded texts of a tag run, each wrapped as a tag token.
pub open spec fn tag_tokens(texts: Seq<Seq<char>>) -> Seq<TokenView> {
    Seq::new(texts.len(), |i: int| TokenView::Tag(texts[i]))
}

/// The tokens of the body of a line (everything after the indentation):
/// in order, punctuation, tag runs, significant spacing where spacing is
/// not followed by a tag, and a trailing unterminated quote with its raw
/// continuation text.
pub open spec fn line_toks(s: Seq<char>, i: int) -> Seq<TokenView>
    decreases s.len() - i,
    when 0 <= i <= s.len()
{
    if i >= s.len() || is_newline_char(s[i]) {
        Seq::empty()
    } else if s[i] == '(' {
        seq![TokenView::Open(Open::Paren)] + line_toks(s, i + 1)
    } else if s[i] == ')' {
        seq![TokenView::Close(Close::Paren)] + line_toks(s, i + 1)
    } else if s[i] == ':' {
        seq![TokenView::Open(Open::Colon)] + line_toks(s, i + 1)
    } else if is_tag_start(s, spacing_end(s, i)) {
        proof {
            lemma_multitag_end_bounds(s, i);
        }
        tag_tokens(multitag_texts(s, i)) + line_toks(s, multitag_end(s, i))
    } else if is_space_char(s[i]) {
        proof {
            lemma_spacing_end_bounds(s, i + 1);
        }
        seq![TokenView::Sigspace] + line_toks(s, spacing_end(s, i))
    } else if s[i] == '"' {
        seq![TokenView::Open(Open::Quote)] + if trailq_text(s, i + 1).len() == 0 {
            Seq::<TokenView>::empty()
        } else {
            seq![TokenView::Tag(trailq_text(s, i + 1))]
        }
    } else {
        Seq::empty()
    }
}

/// The spacing scan stops at the end of the input or at a non-spacing
/// character, so scanning again from its end moves nowhere.
pub proof fn lemma_spacing_end_stop(s: Seq<char>, i: int)
    requires
        0 <= i <= s.len(),
    ensures
        spacing_end(s, i) == s.len() || !is_space_char(s[spacing_end(s, i)]),
        spacing_end(s, spacing_end(s, i)) == spacing_end(s, i),
    decreases s.len() - i,
{
    if i < s.len() && is_space_char(s[i]) {
        lemma_spacing_end_stop(s, i + 1);
    }
}

/// The newline scan stops at the end of the input or at a non-newline
/// character.
pub proof fn lemma_newline_run_end_stop(s: Seq<char>, i: int)
    requires
        0 <= i <= s.len(),
    ensures
        newline_run_end(s, i) == s.len() || !is_newline_char(s[newline_run_end(s, i)]),
    decreases s.len() - i,
{
    if i < s.len() && is_newline_char(s[i]) {
        lemma_newline_run_end_stop(s, i + 1);
    }
}

/// A tag run absorbs the spacing before its first tag: starting the scan
/// before or after that spacing gives the same end and the same texts.
pub proof fn lemma_multitag_absorbs_spacing(s: Seq<char>, i: int)
    requires
        0 <= i <= s.len(),
    ensures
        multitag_end(s, spacing_end(s, i)) == if is_tag_start(s, spacing_end(s, i)) {
            multitag_end(s, i)
        } else {
            spacing_end(s, i)
        },
        is_tag_start(s, spacing_end(s, i)) ==> multitag_texts(s, spacing_end(s, i))
            == multitag_texts(s, i),
{
    let j = spacing_end(s, i);
    lemma_spacing_end_bounds(s, i);
    lemma_spacing_end_stop(s, i);
    if is_tag_start(s, j) {
        lemma_a_tag_end_bounds(s, j);
    }
}

/// Scanning a line from before its indentation or from just after it
/// ends at the same place.
pub proof fn lemma_line_end_absorbs_spacing(s: Seq<char>, i: int)
    requires
        0 <= i <= s.len(),
    ensures
        line_end(s, i) == line_end(s, spacing_end(s, i)),
{
    let j = spacing_end(s, i);
    lemma_spacing_end_bounds(s, i);
    lemma_spacing_end_stop(s, i);
    if j == i {
    } else {
        assert(is_space_char(s[i]));
        lemma_multitag_absorbs_spacing(s, i);
        if is_tag_start(s, j) {
            lemma_multitag_end_bounds(s, i);
        }
    }
}

pub proof fn lemma_line_end_bounds(s: Seq<char>, i: int)
    requires
        0 <= i <= s.len(),
    ensures
        i <= line_end(s, i) <= s.len(),
        line_end(s, i) == s.len() || is_newline_char(s[line_end(s, i)]),
        i < s.len() && !is_newline_char(s[i]) ==> i < line_end(s, i),
    decreases s.len() - i,
{
    if i >= s.len() || is_newline_char(s[i]) {
    } else if s[i] == '(' || s[i] == ')' || s[i] == ':' {
        lemma_line_end_bounds(s, i + 1);
    } else if is_tag_start(s, spacing_end(s, i)) {
        lemma_multitag_end_bounds(s, i);
        lemma_line_end_bounds(s, multitag_end(s, i));
    } else if is_space_char(s[i]) {
        lemma_spacing_end_bounds(s, i + 1);
        lemma_line_end_bounds(s, spacing_end(s, i));
    } else if s[i] == '"' {
        lemma_trailq_end_bounds(s, i + 1);
    } else {
        assert(is_simple_char(s[i]));
        assert(spacing_end(s, i) == i);
        assert(false);
    }
}

/// The full token stream of one line: the indentation token, then the
/// body. With `keep_empty_indent` the indentation token appears even
/// when the line has no indentation; without it an empty indent is
/// omitted.
pub open spec fn line_view(s: Seq<char>, i: int, keep_empty_indent: bool) -> Seq<TokenView> {
    let j = spacing_end(s, i);
    if j > i || keep_empty_indent {
        seq![TokenView::Indent(s.subrange(i, j))] + line_toks(s, j)
    } else {
        line_toks(s, i)
    }
}

/// The lines of the body of a buffer, starting at a line start `i` that
/// is not a newline character: one token stream per line, with maximal
/// interior newline runs as separators and a trailing newline run left
/// unconsumed.
pub open spec fn lines_body(s: Seq<char>, i: int, keep_empty_indent: bool) -> Seq<Seq<TokenView>>
    decreases s.len() - i,
    when 0 <= i <= s.len()
{
    if i >= s.len() || is_newline_char(s[i]) {
        Seq::empty()
    } else {
        let e = line_end(s, i);
        let k = newline_run_end(s, e);
        if k >= s.len() {
            seq![line_view(s, i, keep_empty_indent)]
        } else {
            proof {
                lemma_line_end_bounds(s, i);
                lemma_newline_run_end_bounds(s, e);
            }
            seq![line_view(s, i, keep_empty_indent)] + lines_body(s, k, keep_empty_indent)
        }
    }
}

/// Where the body of a buffer stops: before the trailing newline run, or
/// at the end of the input.
pub open spec fn lines_rest(s: Seq<char>, i: int) -> int
    decreases s.len() - i,
    when 0 <= i <= s.len()
{
    if i >= s.len() || is_newline_char(s[i]) {
        i
    } else {
        let e = line_end(s, i);
        let k = newline_run_end(s, e);
        if k >= s.len() {
            e
        } else {
            proof {
                lemma_line_end_bounds(s, i);
                lemma_newline_run_end_bounds(s, e);
            }
            lines_rest(s, k)
        }
    }
}

/// The token streams of a whole buffer: each leading newline character
/// yields one empty line, then the body's lines follow.
pub open spec fn lines_view(s: Seq<char>, keep_empty_indent: bool) -> Seq<Seq<TokenView>> {
    let b = newline_run_end(s, 0);
    Seq::new(b as nat, |k: int| Seq::<TokenView>::empty()) + lines_body(s, b, keep_empty_indent)
}

/// Where the whole-buffer scan stops (the start of the unconsumed rest).
pub open spec fn lines_view_rest(s: Seq<char>) -> int {
    lines_rest(s, newline_run_end(s, 0))
}

/// A complete buffer is well terminated when its last character is a
/// line feed; `lex` insists on this.
pub open spec fn ends_with_newline(s: Seq<char>) -> bool {
    s.len() > 0 && s[s.len() - 1] == '\n'
}


} // verus!
