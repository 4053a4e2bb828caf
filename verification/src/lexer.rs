//! The lexer: a pure function from a complete text buffer to an ordered
//! sequence of per-line token streams.
//!
//! A physical line is terminated by `\n`, `\r`, or `\r\n`. Within a line
//! the lexer recognises raw indentation, tags in four surface forms
//! (quoted, bare with escapes, bare starting with an escape, and simple),
//! the punctuation `(`, `)` and `:`, significant spacing between tokens,
//! and a trailing unterminated quote. The lexer knows nothing about tree
//! structure; structural legality is the tree builder's responsibility.

use vstd::prelude::*;

pub mod model;

use model::a_tag_end;
use model::a_tag_text;
use model::bare_end;
use model::bare_ok;
use model::bare_text;
use model::ends_with_newline;
use model::esc_end;
use model::esc_text;
use model::escape_value;
use model::is_newline_char;
use model::is_simple_char;
use model::is_space_char;
use model::is_tag_start;
use model::lemma_a_tag_end_bounds;
use model::lemma_line_end_absorbs_spacing;
use model::lemma_line_end_bounds;
use model::lemma_multitag_end_bounds;
use model::lemma_newline_run_end_stop;
use model::lemma_spacing_end_stop;
use model::lemma_trailq_end_bounds;
use model::line_end;
use model::line_toks;
use model::tag_tokens;
use model::line_view;
use model::lines_body;
use model::lines_rest;
use model::lines_view;
use model::lines_view_rest;
use model::multitag_end;
use model::multitag_texts;
use model::newline_run_end;
use model::quote_closes;
use model::simple_end;
use model::spacing_end;
use model::trailq_end;
use model::trailq_text;

verus! {

/// The literal leading whitespace of a line, preserved verbatim.
/// A space and a tab are different indent characters and are never equated.
#[derive(Clone, Debug, PartialEq, Eq)]
pub struct Indent(pub String);

impl View for Indent {
    type V = Seq<char>;

    open spec fn view(&self) -> Seq<char> {
        self.0@
    }
}

/// A decoded, unescaped label string (possibly empty). Tag identity is by
/// decoded content only; the surface form is not retained.
#[derive(Clone, Debug, PartialEq, Eq)]
pub struct Tag(pub String);

impl View for Tag {
    type V = Seq<char>;

    open spec fn view(&self) -> Seq<char> {
        self.0@
    }
}

/// The three ways a nested scope can open: an explicit `(`, a `:` that
/// runs to the end of the line, or a trailing unterminated quote.
#[derive(Clone, Copy, Debug, PartialEq, Eq, Structural)]
pub enum Open {
    Paren,
    Colon,
    Quote,
}

/// The explicit scope closers; only parenthesised scopes have one.
#[derive(Clone, Copy, Debug, PartialEq, Eq, Structural)]
pub enum Close {
    Paren,
}

/// One lexical token of a line.
#[derive(Clone, Debug, PartialEq, Eq)]
pub enum Token {
    Indent(Indent),
    Tag(Tag),
    Open(Open),
    Close(Close),
    Sigspace,
}

/// The mathematical value of a [`Token`]: text carried as a `Seq<char>`.
#[verifier::ext_equal]
pub enum TokenView {
    Indent(Seq<char>),
    Tag(Seq<char>),
    Open(Open),
    Close(Close),
    Sigspace,
}

impl View for Token {
    type V = TokenView;

    open spec fn view(&self) -> TokenView {
        match self {
            Token::Indent(i) => TokenView::Indent(i@),
            Token::Tag(t) => TokenView::Tag(t@),
            Token::Open(o) => TokenView::Open(*o),
            Token::Close(c) => TokenView::Close(*c),
            Token::Sigspace => TokenView::Sigspace,
        }
    }
}

impl Token {
    /// Wrap an indentation string as a token.
    pub fn indent(i: &str) -> (r: Token)
        ensures
            r@ == TokenView::Indent(i@),
    {
        Token::Indent(Indent(i.to_owned()))
    }

    /// Wrap a decoded tag string as a token.
    pub fn tag(t: &str) -> (r: Token)
        ensures
            r@ == TokenView::Tag(t@),
    {
        Token::Tag(Tag(t.to_owned()))
    }
}

impl From<Indent> for Token {
    fn from(i: Indent) -> (r: Token) {
        Token::Indent(i)
    }
}

impl vstd::std_specs::convert::FromSpecImpl<Indent> for Token {
    open spec fn obeys_from_spec() -> bool {
        true
    }

    open spec fn from_spec(i: Indent) -> Token {
        Token::Indent(i)
    }
}

impl From<Tag> for Token {
    fn from(t: Tag) -> (r: Token) {
        Token::Tag(t)
    }
}

impl vstd::std_specs::convert::FromSpecImpl<Tag> for Token {
    open spec fn obeys_from_spec() -> bool {
        true
    }

    open spec fn from_spec(t: Tag) -> Token {
        Token::Tag(t)
    }
}

impl From<Open> for Token {
    fn from(o: Open) -> (r: Token) {
        Token::Open(o)
    }
}

impl vstd::std_specs::convert::FromSpecImpl<Open> for Token {
    open spec fn obeys_from_spec() -> bool {
        true
    }

    open spec fn from_spec(o: Open) -> Token {
        Token::Open(o)
    }
}

impl From<Close> for Token {
    fn from(c: Close) -> (r: Token) {
        Token::Close(c)
    }
}

impl vstd::std_specs::convert::FromSpecImpl<Close> for Token {
    open spec fn obeys_from_spec() -> bool {
        true
    }

    open spec fn from_spec(c: Close) -> Token {
        Token::Close(c)
    }
}

/// The values of a sequence of tokens.
pub open spec fn toks_view(v: Seq<Token>) -> Seq<TokenView> {
    Seq::new(v.len(), |i: int| v[i]@)
}

/// The texts of a sequence of tags.
pub open spec fn tags_view(v: Seq<Tag>) -> Seq<Seq<char>> {
    Seq::new(v.len(), |i: int| v[i]@)
}

/// The values of a sequence of lines.
pub open spec fn lines_of(v: Seq<Line>) -> Seq<Seq<TokenView>> {
    Seq::new(v.len(), |i: int| v[i]@)
}

/// One lexed physical line: an ordered sequence of tokens.
/// A blank line is a `Line` with zero tokens.
#[derive(Clone, Debug, PartialEq, Eq)]
pub struct Line(pub Vec<Token>);

impl View for Line {
    type V = Seq<TokenView>;

    open spec fn view(&self) -> Seq<TokenView> {
        toks_view(self.0@)
    }
}

/// The lexer's failure values. `lex` itself fails only with `Incomplete`;
/// the piecewise entry points report a failed match with `NoMatch`.
#[derive(Clone, Copy, Debug, PartialEq, Eq, Structural)]
pub enum LexError {
    /// The input does not end in a newline; the format requires
    /// trailing-newline-terminated input.
    Incomplete,
    /// The input does not begin with anything this entry point accepts.
    NoMatch,
}

fn char_is_space(c: char) -> (r: bool)
    ensures
        r == is_space_char(c),
{
    c == ' ' || c == '\t'
}

fn char_is_newline(c: char) -> (r: bool)
    ensures
        r == is_newline_char(c),
{
    c == '\n' || c == '\r'
}

fn char_is_simple(c: char) -> (r: bool)
    ensures
        r == is_simple_char(c),
{
    !(c == ' ' || c == '\t' || c == '\n' || c == '\r' || c == '"' || c == ':' || c == '(' || c
        == ')')
}

fn scan_spacing(s: &str, i: usize) -> (j: usize)
    requires
        i <= s@.len(),
    ensures
        i <= j <= s@.len(),
        j == spacing_end(s@, i as int),
{
    let n = s.unicode_len();
    let mut j = i;
    loop
        invariant
            i <= j <= n,
            n == s@.len(),
            spacing_end(s@, i as int) == spacing_end(s@, j as int),
        ensures
            i <= j <= n,
            n == s@.len(),
            j == spacing_end(s@, i as int),
        decreases n - j,
    {
        if j == n {
            break ;
        }
        let c = s.get_char(j);
        if !char_is_space(c) {
            break ;
        }
        j = j + 1;
    }
    j
}

fn scan_simple(s: &str, i: usize) -> (j: usize)
    requires
        i <= s@.len(),
    ensures
        i <= j <= s@.len(),
        j == simple_end(s@, i as int),
{
    let n = s.unicode_len();
    let mut j = i;
    loop
        invariant
            i <= j <= n,
            n == s@.len(),
            simple_end(s@, i as int) == simple_end(s@, j as int),
        ensures
            i <= j <= n,
            n == s@.len(),
            j == simple_end(s@, i as int),
        decreases n - j,
    {
        if j == n {
            break ;
        }
        let c = s.get_char(j);
        if !char_is_simple(c) {
            break ;
        }
        j = j + 1;
    }
    j
}

fn scan_newlines(s: &str, i: usize) -> (j: usize)
    requires
        i <= s@.len(),
    ensures
        i <= j <= s@.len(),
        j == newline_run_end(s@, i as int),
{
    let n = s.unicode_len();
    let mut j = i;
    loop
        invariant
            i <= j <= n,
            n == s@.len(),
            newline_run_end(s@, i as int) == newline_run_end(s@, j as int),
        ensures
            i <= j <= n,
            n == s@.len(),
            j == newline_run_end(s@, i as int),
        decreases n - j,
    {
        if j == n {
            break ;
        }
        let c = s.get_char(j);
        if !char_is_newline(c) {
            break ;
        }
        j = j + 1;
    }
    j
}

/// Append the single character `s[k]` to `out`.
fn push_char_at(out: &mut String, s: &str, k: usize)
    requires
        k < s@.len(),
    ensures
        final(out)@ == old(out)@ + seq![s@[k as int]],
{
    let chars = s.unicode_len();
    proof {
        assert(k < chars);
    }
    let piece = s.substring_char(k, k + 1);
    proof {
        assert(piece@ =~= seq![s@[k as int]]);
    }
    out.append(piece);
}

/// Append the decoded value of the escape `\c` where `c == s[k]`.
fn push_escape_at(out: &mut String, s: &str, k: usize)
    requires
        k < s@.len(),
    ensures
        final(out)@ == old(out)@ + seq![escape_value(s@[k as int])],
{
    let c = s.get_char(k);
    if c == 'n' {
        proof {
            reveal_strlit("\n");
            assert("\n"@ =~= seq![escape_value(s@[k as int])]);
        }
        out.append("\n");
    } else if c == 't' {
        proof {
            reveal_strlit("\t");
            assert("\t"@ =~= seq![escape_value(s@[k as int])]);
        }
        out.append("\t");
    } else if c == 'h' {
        proof {
            reveal_strlit("\u{2603}");
            assert("\u{2603}"@ =~= seq![escape_value(s@[k as int])]);
        }
        out.append("\u{2603}");
    } else {
        push_char_at(out, s, k);
    }
}

/// Scan escaped tag content from `i`: the span of a quoted tag, which
/// ends at an unescaped quote, a newline, the end of the input, or a
/// dangling backslash.
fn scan_escaped(s: &str, i: usize) -> (r: (usize, String))
    requires
        i <= s@.len(),
    ensures
        i <= r.0 <= s@.len(),
        r.0 == esc_end(s@, i as int),
        r.1@ == esc_text(s@, i as int),
{
    let n = s.unicode_len();
    let mut j = i;
    let mut out = String::new();
    loop
        invariant
            i <= j <= n,
            n == s@.len(),
            esc_end(s@, i as int) == esc_end(s@, j as int),
            esc_text(s@, i as int) == out@ + esc_text(s@, j as int),
        ensures
            i <= j <= n,
            n == s@.len(),
            j == esc_end(s@, i as int),
            out@ == esc_text(s@, i as int),
        decreases n - j,
    {
        if j == n {
            break ;
        }
        let c = s.get_char(j);
        if c == '"' || char_is_newline(c) {
            break ;
        }
        if c == '\\' {
            if j + 1 == n {
                break ;
            }
            let c2 = s.get_char(j + 1);
            if char_is_newline(c2) {
                break ;
            }
            proof {
                assert(esc_text(s@, j as int) == seq![escape_value(s@[j + 1])] + esc_text(
                    s@,
                    j + 2,
                ));
                assert((out@ + seq![escape_value(s@[j + 1])]) + esc_text(s@, j + 2) =~= out@ + (
                seq![escape_value(s@[j + 1])] + esc_text(s@, j + 2)));
            }
            push_escape_at(&mut out, s, j + 1);
            j = j + 2;
        } else {
            proof {
                assert(esc_text(s@, j as int) == seq![s@[j as int]] + esc_text(s@, j + 1));
                assert((out@ + seq![s@[j as int]]) + esc_text(s@, j + 1) =~= out@ + (
                seq![s@[j as int]] + esc_text(s@, j + 1)));
            }
            push_char_at(&mut out, s, j);
            j = j + 1;
        }
    }
    (j, out)
}

/// Scan the raw continuation text of a trailing unterminated quote: to
/// the end of the line, escapes decoded, a dangling backslash literal.
fn scan_trailq(s: &str, i: usize) -> (r: (usize, String))
    requires
        i <= s@.len(),
    ensures
        i <= r.0 <= s@.len(),
        r.0 == trailq_end(s@, i as int),
        r.1@ == trailq_text(s@, i as int),
{
    let n = s.unicode_len();
    let mut j = i;
    let mut out = String::new();
    loop
        invariant
            i <= j <= n,
            n == s@.len(),
            trailq_end(s@, i as int) == trailq_end(s@, j as int),
            trailq_text(s@, i as int) == out@ + trailq_text(s@, j as int),
        ensures
            i <= j <= n,
            n == s@.len(),
            j == trailq_end(s@, i as int),
            out@ == trailq_text(s@, i as int),
        decreases n - j,
    {
        if j == n {
            break ;
        }
        let c = s.get_char(j);
        if char_is_newline(c) {
            break ;
        }
        let mut escape = false;
        if c == '\\' && j + 1 < n {
            let c2 = s.get_char(j + 1);
            if !char_is_newline(c2) {
                escape = true;
            }
        }
        if escape {
            proof {
                assert(trailq_text(s@, j as int) == seq![escape_value(s@[j + 1])] + trailq_text(
                    s@,
                    j + 2,
                ));
                assert((out@ + seq![escape_value(s@[j + 1])]) + trailq_text(s@, j + 2) =~= out@ + (
                seq![escape_value(s@[j + 1])] + trailq_text(s@, j + 2)));
            }
            push_escape_at(&mut out, s, j + 1);
            j = j + 2;
        } else {
            proof {
                assert(trailq_text(s@, j as int) == seq![s@[j as int]] + trailq_text(s@, j + 1));
                assert((out@ + seq![s@[j as int]]) + trailq_text(s@, j + 1) =~= out@ + (
                seq![s@[j as int]] + trailq_text(s@, j + 1)));
            }
            push_char_at(&mut out, s, j);
            j = j + 1;
        }
    }
    (j, out)
}

/// Scan a bare escaped tag from `i`. The third component reports whether
/// the scan ended cleanly; when it did not (a dangling backslash), the
/// tag falls back to the raw simple form.
fn scan_bare(s: &str, i: usize) -> (r: (usize, String, bool))
    requires
        i <= s@.len(),
    ensures
        i <= r.0 <= s@.len(),
        r.0 == bare_end(s@, i as int),
        r.1@ == bare_text(s@, i as int),
        r.2 == bare_ok(s@, i as int),
{
    let n = s.unicode_len();
    let mut j = i;
    let mut out = String::new();
    let mut ok = true;
    loop
        invariant_except_break
            ok,
            bare_ok(s@, i as int) == bare_ok(s@, j as int),
        invariant
            i <= j <= n,
            n == s@.len(),
            bare_end(s@, i as int) == bare_end(s@, j as int),
            bare_text(s@, i as int) == out@ + bare_text(s@, j as int),
        ensures
            i <= j <= n,
            n == s@.len(),
            j == bare_end(s@, i as int),
            out@ == bare_text(s@, i as int),
            ok == bare_ok(s@, i as int),
        decreases n - j,
    {
        if j == n {
            break ;
        }
        let c = s.get_char(j);
        if char_is_simple(c) && c != '\\' {
            proof {
                assert(bare_text(s@, j as int) == seq![s@[j as int]] + bare_text(s@, j + 1));
                assert((out@ + seq![s@[j as int]]) + bare_text(s@, j + 1) =~= out@ + (
                seq![s@[j as int]] + bare_text(s@, j + 1)));
            }
            push_char_at(&mut out, s, j);
            j = j + 1;
        } else if c == '\\' {
            let mut escape = false;
            if j + 1 < n {
                let c2 = s.get_char(j + 1);
                if !char_is_newline(c2) {
                    escape = true;
                }
            }
            if escape {
                proof {
                    assert(bare_text(s@, j as int) == seq![escape_value(s@[j + 1])] + bare_text(
                        s@,
                        j + 2,
                    ));
                    assert((out@ + seq![escape_value(s@[j + 1])]) + bare_text(s@, j + 2) =~= out@
                        + (seq![escape_value(s@[j + 1])] + bare_text(s@, j + 2)));
                }
                push_escape_at(&mut out, s, j + 1);
                j = j + 2;
            } else {
                ok = false;
                break ;
            }
        } else {
            break ;
        }
    }
    (j, out, ok)
}

/// Whether a tag begins at `i`: a simple character, or a quote that is
/// closed again before the end of the line.
fn tag_start_at(s: &str, i: usize) -> (r: bool)
    requires
        i <= s@.len(),
    ensures
        r == is_tag_start(s@, i as int),
{
    let n = s.unicode_len();
    if i == n {
        return false;
    }
    let c = s.get_char(i);
    if char_is_simple(c) {
        return true;
    }
    if c == '"' {
        let scanned = scan_escaped(s, i + 1);
        let e = scanned.0;
        if e < n {
            return s.get_char(e) == '"';
        }
        return false;
    }
    false
}

/// Read one tag at `i`, in whichever of the four surface forms matches
/// first: quoted, bare starting with an escape, bare escaped, simple.
fn a_tag(s: &str, i: usize) -> (r: (usize, Tag))
    requires
        is_tag_start(s@, i as int),
    ensures
        i < r.0 <= s@.len(),
        r.0 == a_tag_end(s@, i as int),
        r.1@ == a_tag_text(s@, i as int),
{
    proof {
        lemma_a_tag_end_bounds(s@, i as int);
    }
    let chars = s.unicode_len();
    proof {
        assert(i < chars);
    }
    let c = s.get_char(i);
    if c == '"' {
        let (e, t) = scan_escaped(s, i + 1);
        (e + 1, Tag(t))
    } else {
        let (e, t, ok) = scan_bare(s, i);
        if ok {
            (e, Tag(t))
        } else {
            let e2 = scan_simple(s, i);
            let raw = s.substring_char(i, e2);
            (e2, Tag(raw.to_owned()))
        }
    }
}

/// Read the run of tags at `i`: tags separated by optional spacing, the
/// spacing before a non-tag left unconsumed.
fn multitag_at(s: &str, i: usize) -> (r: (usize, Vec<Tag>))
    requires
        i <= s@.len(),
    ensures
        i <= r.0 <= s@.len(),
        r.0 == multitag_end(s@, i as int),
        tags_view(r.1@) == multitag_texts(s@, i as int),
{
    let mut tags: Vec<Tag> = Vec::new();
    let mut j = i;
    loop
        invariant
            i <= j <= s@.len(),
            multitag_end(s@, i as int) == multitag_end(s@, j as int),
            multitag_texts(s@, i as int) == tags_view(tags@) + multitag_texts(s@, j as int),
        ensures
            i <= j <= s@.len(),
            j == multitag_end(s@, i as int),
            tags_view(tags@) == multitag_texts(s@, i as int),
        decreases s@.len() - j,
    {
        let k = scan_spacing(s, j);
        if !tag_start_at(s, k) {
            proof {
                assert(multitag_end(s@, j as int) == j);
                assert(multitag_texts(s@, j as int) =~= Seq::<Seq<char>>::empty());
                assert(tags_view(tags@) + Seq::<Seq<char>>::empty() =~= tags_view(tags@));
            }
            break ;
        }
        let (e, t) = a_tag(s, k);
        proof {
            lemma_multitag_end_bounds(s@, e as int);
            assert(multitag_end(s@, j as int) == multitag_end(s@, e as int));
            assert(multitag_texts(s@, j as int) == seq![a_tag_text(s@, k as int)] + multitag_texts(
                s@,
                e as int,
            ));
            assert(tags_view(tags@.push(t)) =~= tags_view(tags@) + seq![t@]);
            assert((tags_view(tags@) + seq![t@]) + multitag_texts(s@, e as int) =~= tags_view(
                tags@,
            ) + (seq![t@] + multitag_texts(s@, e as int)));
        }
        tags.push(t);
        j = e;
    }
    (j, tags)
}

proof fn lemma_toks_push(v: Seq<Token>, t: Token)
    ensures
        toks_view(v.push(t)) =~= toks_view(v) + seq![t@],
{
    assert(toks_view(v.push(t)) =~= toks_view(v) + seq![t@]);
}

/// Read one whole line starting at `start`: the indentation, then the
/// body, up to (but not including) the terminating newline.
fn line_at(s: &str, start: usize, keep_empty_indent: bool) -> (r: (usize, Line))
    requires
        start <= s@.len(),
    ensures
        start <= r.0 <= s@.len(),
        r.0 == line_end(s@, start as int),
        r.1@ == line_view(s@, start as int, keep_empty_indent),
{
    let n = s.unicode_len();
    let j = scan_spacing(s, start);
    let mut toks: Vec<Token> = Vec::new();
    if j > start || keep_empty_indent {
        let ind = s.substring_char(start, j);
        let tok = Token::Indent(Indent(ind.to_owned()));
        proof {
            lemma_toks_push(toks@, tok);
            assert(toks_view(Seq::<Token>::empty()) =~= Seq::<TokenView>::empty());
        }
        toks.push(tok);
    }
    proof {
        lemma_line_end_absorbs_spacing(s@, start as int);
        assert(line_view(s@, start as int, keep_empty_indent) =~= toks_view(toks@) + line_toks(
            s@,
            j as int,
        ));
    }
    let mut p = j;
    loop
        invariant
            j <= p <= n,
            n == s@.len(),
            line_end(s@, start as int) == line_end(s@, p as int),
            line_view(s@, start as int, keep_empty_indent) == toks_view(toks@) + line_toks(
                s@,
                p as int,
            ),
        ensures
            j <= p <= n,
            n == s@.len(),
            p == line_end(s@, start as int),
            toks_view(toks@) == line_view(s@, start as int, keep_empty_indent),
        decreases n - p,
    {
        if p == n {
            proof {
                assert(line_toks(s@, p as int) =~= Seq::<TokenView>::empty());
                assert(toks_view(toks@) + Seq::<TokenView>::empty() =~= toks_view(toks@));
            }
            break ;
        }
        let c = s.get_char(p);
        if char_is_newline(c) {
            proof {
                assert(line_toks(s@, p as int) =~= Seq::<TokenView>::empty());
                assert(toks_view(toks@) + Seq::<TokenView>::empty() =~= toks_view(toks@));
            }
            break ;
        }
        if c == '(' || c == ')' || c == ':' {
            let tok = if c == '(' {
                Token::Open(Open::Paren)
            } else if c == ')' {
                Token::Close(Close::Paren)
            } else {
                Token::Open(Open::Colon)
            };
            proof {
                assert(line_toks(s@, p as int) == seq![tok@] + line_toks(s@, p + 1));
                lemma_toks_push(toks@, tok);
                assert((toks_view(toks@) + seq![tok@]) + line_toks(s@, p + 1) =~= toks_view(toks@)
                    + (seq![tok@] + line_toks(s@, p + 1)));
            }
            toks.push(tok);
            p = p + 1;
        } else {
            let k = scan_spacing(s, p);
            if tag_start_at(s, k) {
                let (e, mut ts) = multitag_at(s, p);
                proof {
                    lemma_multitag_end_bounds(s@, p as int);
                    assert(line_toks(s@, p as int) == tag_tokens(multitag_texts(s@, p as int))
                        + line_toks(s@, e as int));
                    assert(line_end(s@, p as int) == line_end(s@, e as int));
                }
                let ghost base = toks@;
                let ghost texts = multitag_texts(s@, p as int);
                loop
                    invariant
                        toks_view(base) + tag_tokens(texts) =~= toks_view(toks@) + tag_tokens(
                            tags_view(ts@),
                        ),
                    ensures
                        toks_view(toks@) =~= toks_view(base) + tag_tokens(texts),
                    decreases ts@.len(),
                {
                    if ts.len() == 0 {
                        proof {
                            assert(tag_tokens(tags_view(ts@)) =~= Seq::<TokenView>::empty());
                            assert(toks_view(toks@) + Seq::<TokenView>::empty() =~= toks_view(
                                toks@,
                            ));
                        }
                        break ;
                    }
                    let ghost ts0 = ts@;
                    let t = ts.remove(0);
                    let tok = Token::Tag(t);
                    proof {
                        assert(tags_view(ts0) =~= seq![t@] + tags_view(ts@));
                        assert(tag_tokens(seq![t@] + tags_view(ts@)) =~= seq![tok@] + tag_tokens(
                            tags_view(ts@),
                        ));
                        lemma_toks_push(toks@, tok);
                        assert((toks_view(toks@) + seq![tok@]) + tag_tokens(tags_view(ts@))
                            =~= toks_view(toks@) + (seq![tok@] + tag_tokens(tags_view(ts@))));
                    }
                    toks.push(tok);
                }
                proof {
                    assert((toks_view(base) + tag_tokens(texts)) + line_toks(s@, e as int)
                        =~= toks_view(base) + (tag_tokens(texts) + line_toks(s@, e as int)));
                }
                p = e;
            } else if char_is_space(c) {
                let tok = Token::Sigspace;
                proof {
                    assert(line_toks(s@, p as int) == seq![tok@] + line_toks(s@, k as int));
                    lemma_toks_push(toks@, tok);
                    assert((toks_view(toks@) + seq![tok@]) + line_toks(s@, k as int) =~= toks_view(
                        toks@,
                    ) + (seq![tok@] + line_toks(s@, k as int)));
                }
                toks.push(tok);
                p = k;
            } else if c == '"' {
                let tok = Token::Open(Open::Quote);
                let (e2, t) = scan_trailq(s, p + 1);
                let has_text = !t.as_str().is_empty();
                proof {
                    lemma_trailq_end_bounds(s@, p + 1);
                    assert(line_end(s@, p as int) == e2);
                    assert(line_toks(s@, e2 as int) =~= Seq::<TokenView>::empty());
                }
                if has_text {
                    let tag_tok = Token::Tag(Tag(t));
                    proof {
                        assert(line_toks(s@, p as int) == seq![tok@] + seq![tag_tok@]);
                        lemma_toks_push(toks@, tok);
                        lemma_toks_push(toks@.push(tok), tag_tok);
                        assert(toks_view(toks@.push(tok).push(tag_tok)) =~= toks_view(toks@) + (
                        seq![tok@] + seq![tag_tok@]));
                        assert((toks_view(toks@) + (seq![tok@] + seq![tag_tok@]))
                            + Seq::<TokenView>::empty() =~= toks_view(toks@) + (seq![tok@]
                            + seq![tag_tok@]));
                    }
                    toks.push(tok);
                    toks.push(tag_tok);
                } else {
                    proof {
                        assert(line_toks(s@, p as int) =~= seq![tok@]);
                        lemma_toks_push(toks@, tok);
                        assert((toks_view(toks@) + seq![tok@]) + Seq::<TokenView>::empty()
                            =~= toks_view(toks@) + seq![tok@]);
                    }
                    toks.push(tok);
                }
                p = e2;
            } else {
                proof {
                    assert(is_simple_char(s@[p as int]));
                    assert(spacing_end(s@, p as int) == p);
                    assert(false);
                }
                break ;
            }
        }
    }
    (p, Line(toks))
}

/// Read a whole buffer: one empty line per leading newline character,
/// then one line per maximal-newline-run-separated segment, the trailing
/// newline run left unconsumed.
fn lines_at(s: &str, keep_empty_indent: bool) -> (r: (usize, Vec<Line>))
    ensures
        0 <= r.0 <= s@.len(),
        r.0 == lines_view_rest(s@),
        lines_of(r.1@) == lines_view(s@, keep_empty_indent),
{
    let n = s.unicode_len();
    let b = scan_newlines(s, 0);
    let mut out: Vec<Line> = Vec::new();
    let mut k: usize = 0;
    while k < b
        invariant
            k <= b <= n,
            n == s@.len(),
            b == newline_run_end(s@, 0),
            out@.len() == k,
            lines_of(out@) =~= Seq::new(k as nat, |q: int| Seq::<TokenView>::empty()),
        decreases b - k,
    {
        let ghost out0 = out@;
        let blank = Line(Vec::new());
        proof {
            assert(blank@ =~= Seq::<TokenView>::empty());
        }
        out.push(blank);
        proof {
            assert forall|q: int| 0 <= q < out@.len() implies lines_of(out@)[q]
                == Seq::<TokenView>::empty() by {
                if q < k {
                    assert(lines_of(out0)[q] == Seq::new(
                        k as nat,
                        |w: int| Seq::<TokenView>::empty(),
                    )[q]);
                }
            }
            assert(lines_of(out@) =~= Seq::new((k + 1) as nat, |q: int| Seq::<TokenView>::empty()));
        }
        k = k + 1;
    }
    proof {
        lemma_newline_run_end_stop(s@, 0);
        assert(lines_view(s@, keep_empty_indent) =~~= lines_of(out@) + lines_body(
            s@,
            b as int,
            keep_empty_indent,
        ));
    }
    let mut pos = b;
    loop
        invariant_except_break
            pos == n || !is_newline_char(s@[pos as int]),
        invariant
            b <= pos <= n,
            n == s@.len(),
            lines_view(s@, keep_empty_indent) == lines_of(out@) + lines_body(
                s@,
                pos as int,
                keep_empty_indent,
            ),
            lines_rest(s@, b as int) == lines_rest(s@, pos as int),
        ensures
            pos <= n,
            n == s@.len(),
            lines_of(out@) == lines_view(s@, keep_empty_indent),
            pos == lines_rest(s@, b as int),
        decreases n - pos,
    {
        if pos == n {
            proof {
                assert(lines_body(s@, pos as int, keep_empty_indent)
                    =~= Seq::<Seq<TokenView>>::empty());
                assert(lines_of(out@) + Seq::<Seq<TokenView>>::empty() =~= lines_of(out@));
            }
            break ;
        }
        let (e, ln) = line_at(s, pos, keep_empty_indent);
        proof {
            lemma_line_end_bounds(s@, pos as int);
        }
        let k2 = scan_newlines(s, e);
        proof {
            lemma_newline_run_end_stop(s@, e as int);
        }
        let ghost out0 = out@;
        out.push(ln);
        proof {
            assert(lines_of(out@) =~= lines_of(out0) + seq![ln@]);
        }
        if k2 == n {
            proof {
                assert(lines_body(s@, pos as int, keep_empty_indent) == seq![
                    line_view(s@, pos as int, keep_empty_indent),
                ]);
                assert(lines_of(out0) + seq![ln@] =~= lines_of(out@));
                assert(lines_of(out0) + lines_body(s@, pos as int, keep_empty_indent)
                    =~= lines_of(out@));
                assert(lines_rest(s@, pos as int) == e);
                assert(lines_rest(s@, e as int) == e);
            }
            pos = e;
            break ;
        }
        proof {
            assert(lines_body(s@, pos as int, keep_empty_indent) == seq![
                line_view(s@, pos as int, keep_empty_indent),
            ] + lines_body(s@, k2 as int, keep_empty_indent));
            assert((lines_of(out0) + seq![ln@]) + lines_body(s@, k2 as int, keep_empty_indent)
                =~= lines_of(out0) + (seq![ln@] + lines_body(s@, k2 as int, keep_empty_indent)));
            assert(lines_rest(s@, pos as int) == lines_rest(s@, k2 as int));
        }
        pos = k2;
    }
    (pos, out)
}

/// Read one simple tag: a maximal nonempty run of characters free of
/// spacing, newlines, quotes, colons and parentheses, kept verbatim.
pub fn simple_tag<'a>(input: &'a str) -> (r: Result<(&'a str, Tag), LexError>)
    ensures
        r is Ok <==> input@.len() > 0 && is_simple_char(input@[0]),
        r matches Ok(p) ==> {
            &&& p.1@ == input@.subrange(0, simple_end(input@, 0))
            &&& p.0@ == input@.subrange(simple_end(input@, 0), input@.len() as int)
        },
        r matches Err(e) ==> e == LexError::NoMatch,
{
    let n = input.unicode_len();
    if n == 0 {
        return Err(LexError::NoMatch);
    }
    let c = input.get_char(0);
    if !char_is_simple(c) {
        return Err(LexError::NoMatch);
    }
    let e = scan_simple(input, 0);
    let raw = input.substring_char(0, e);
    let rest = input.substring_char(e, n);
    Ok((rest, Tag(raw.to_owned())))
}

/// Read escaped tag content from the start of the input: everything up
/// to an unescaped quote, a newline, the end of the input, or a dangling
/// backslash, with escapes decoded. The content may be empty.
pub fn escaped_tag<'a>(input: &'a str) -> (r: Result<(&'a str, Tag), LexError>)
    ensures
        r is Ok,
        r matches Ok(p) ==> {
            &&& p.1@ == esc_text(input@, 0)
            &&& p.0@ == input@.subrange(esc_end(input@, 0), input@.len() as int)
        },
{
    let n = input.unicode_len();
    let (e, t) = scan_escaped(input, 0);
    let rest = input.substring_char(e, n);
    Ok((rest, Tag(t)))
}

/// Read a quoted tag: a quote, escaped content, and a closing quote on
/// the same line.
pub fn quoted_tag<'a>(input: &'a str) -> (r: Result<(&'a str, Tag), LexError>)
    ensures
        r is Ok <==> input@.len() > 0 && input@[0] == '"' && quote_closes(input@, 0),
        r matches Ok(p) ==> {
            &&& p.1@ == esc_text(input@, 1)
            &&& p.0@ == input@.subrange(esc_end(input@, 1) + 1, input@.len() as int)
        },
        r matches Err(e) ==> e == LexError::NoMatch,
{
    let n = input.unicode_len();
    if n == 0 {
        return Err(LexError::NoMatch);
    }
    if input.get_char(0) != '"' {
        return Err(LexError::NoMatch);
    }
    let (e, t) = scan_escaped(input, 1);
    if e == n {
        return Err(LexError::NoMatch);
    }
    if input.get_char(e) != '"' {
        return Err(LexError::NoMatch);
    }
    let rest = input.substring_char(e + 1, n);
    Ok((rest, Tag(t)))
}

/// Read a run of one or more tags separated by optional spacing, the
/// spacing after the last tag left unconsumed.
pub fn multitag<'a>(input: &'a str) -> (r: Result<(&'a str, Vec<Tag>), LexError>)
    ensures
        r is Ok <==> is_tag_start(input@, spacing_end(input@, 0)),
        r matches Ok(p) ==> {
            &&& tags_view(p.1@) == multitag_texts(input@, 0)
            &&& p.0@ == input@.subrange(multitag_end(input@, 0), input@.len() as int)
        },
        r matches Err(e) ==> e == LexError::NoMatch,
{
    let k = scan_spacing(input, 0);
    if !tag_start_at(input, k) {
        return Err(LexError::NoMatch);
    }
    let (e, ts) = multitag_at(input, 0);
    let n = input.unicode_len();
    let rest = input.substring_char(e, n);
    Ok((rest, ts))
}

/// Read a scope opener: `(` or `:`.
pub fn open<'a>(input: &'a str) -> (r: Result<(&'a str, Open), LexError>)
    ensures
        r is Ok <==> input@.len() > 0 && (input@[0] == '(' || input@[0] == ':'),
        r matches Ok(p) ==> {
            &&& p.1 == (if input@[0] == '(' {
                Open::Paren
            } else {
                Open::Colon
            })
            &&& p.0@ == input@.subrange(1, input@.len() as int)
        },
        r matches Err(e) ==> e == LexError::NoMatch,
{
    let n = input.unicode_len();
    if n == 0 {
        return Err(LexError::NoMatch);
    }
    let c = input.get_char(0);
    if c == '(' {
        Ok((input.substring_char(1, n), Open::Paren))
    } else if c == ':' {
        Ok((input.substring_char(1, n), Open::Colon))
    } else {
        Err(LexError::NoMatch)
    }
}

/// Read the scope closer `)`.
pub fn close<'a>(input: &'a str) -> (r: Result<(&'a str, Close), LexError>)
    ensures
        r is Ok <==> input@.len() > 0 && input@[0] == ')',
        r matches Ok(p) ==> {
            &&& p.1 == Close::Paren
            &&& p.0@ == input@.subrange(1, input@.len() as int)
        },
        r matches Err(e) ==> e == LexError::NoMatch,
{
    let n = input.unicode_len();
    if n == 0 {
        return Err(LexError::NoMatch);
    }
    if input.get_char(0) == ')' {
        Ok((input.substring_char(1, n), Close::Paren))
    } else {
        Err(LexError::NoMatch)
    }
}

/// Lex one line, omitting the indentation token when the line has no
/// indentation. Always succeeds; the rest begins at the terminating
/// newline (or at the end of the input).
pub fn line<'a>(input: &'a str) -> (r: Result<(&'a str, Line), LexError>)
    ensures
        r is Ok,
        r matches Ok(p) ==> {
            &&& p.1@ == line_view(input@, 0, false)
            &&& p.0@ == input@.subrange(line_end(input@, 0), input@.len() as int)
        },
{
    let (e, ln) = line_at(input, 0, false);
    let n = input.unicode_len();
    Ok((input.substring_char(e, n), ln))
}

/// Lex one line, keeping the indentation token even when the line has
/// no indentation.
pub fn line_raw<'a>(input: &'a str) -> (r: Result<(&'a str, Line), LexError>)
    ensures
        r is Ok,
        r matches Ok(p) ==> {
            &&& p.1@ == line_view(input@, 0, true)
            &&& p.0@ == input@.subrange(line_end(input@, 0), input@.len() as int)
        },
{
    let (e, ln) = line_at(input, 0, true);
    let n = input.unicode_len();
    Ok((input.substring_char(e, n), ln))
}

/// Lex a whole buffer into lines, omitting empty indentation tokens.
/// Always succeeds; the rest is the trailing newline run.
pub fn lines<'a>(input: &'a str) -> (r: Result<(&'a str, Vec<Line>), LexError>)
    ensures
        r is Ok,
        r matches Ok(p) ==> {
            &&& lines_of(p.1@) == lines_view(input@, false)
            &&& p.0@ == input@.subrange(lines_view_rest(input@), input@.len() as int)
        },
{
    let (e, v) = lines_at(input, false);
    let n = input.unicode_len();
    Ok((input.substring_char(e, n), v))
}

/// Lex a whole buffer into lines, keeping empty indentation tokens.
pub fn lines_raw<'a>(input: &'a str) -> (r: Result<(&'a str, Vec<Line>), LexError>)
    ensures
        r is Ok,
        r matches Ok(p) ==> {
            &&& lines_of(p.1@) == lines_view(input@, true)
            &&& p.0@ == input@.subrange(lines_view_rest(input@), input@.len() as int)
        },
{
    let (e, v) = lines_at(input, true);
    let n = input.unicode_len();
    Ok((input.substring_char(e, n), v))
}

/// Lex a complete buffer. The input must end in a line feed; any other
/// input is rejected with `Incomplete`, the lexer's only failure for
/// complete buffers. On success the result holds one `Line` per leading
/// newline character and per newline-separated segment, with empty
/// indentation tokens omitted.
pub fn lex(input: &str) -> (r: Result<Vec<Line>, LexError>)
    ensures
        r is Ok <==> ends_with_newline(input@),
        r matches Ok(v) ==> lines_of(v@) == lines_view(input@, false),
        r matches Err(e) ==> e == LexError::Incomplete,
{
    let n = input.unicode_len();
    if n == 0 {
        return Err(LexError::Incomplete);
    }
    if input.get_char(n - 1) != '\n' {
        return Err(LexError::Incomplete);
    }
    let (_rest, v) = lines_at(input, false);
    Ok(v)
}

/// Lex a complete buffer, keeping the indentation token of every
/// non-blank line even when it is empty.
pub fn lex_raw(input: &str) -> (r: Result<Vec<Line>, LexError>)
    ensures
        r is Ok <==> ends_with_newline(input@),
        r matches Ok(v) ==> lines_of(v@) == lines_view(input@, true),
        r matches Err(e) ==> e == LexError::Incomplete,
{
    let n = input.unicode_len();
    if n == 0 {
        return Err(LexError::Incomplete);
    }
    if input.get_char(n - 1) != '\n' {
        return Err(LexError::Incomplete);
    }
    let (_rest, v) = lines_at(input, true);
    Ok(v)
}

} // verus!
