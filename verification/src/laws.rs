//! Laws of the lexer and the builder that hold for whole families of
//! inputs, stated and proved once here. Each is phrased over the same
//! models that the executable functions' contracts use, so what these
//! say carries over to every call of `lex` and `turn`.

use vstd::prelude::*;

use crate::lexer::model::bare_end;
use crate::lexer::model::bare_ok;
use crate::lexer::model::bare_text;
use crate::lexer::model::is_bare_char;
use crate::lexer::model::is_newline_char;
use crate::lexer::model::is_simple_char;
use crate::lexer::model::is_space_char;
use crate::lexer::model::is_tag_start;
use crate::lexer::model::a_tag_end;
use crate::lexer::model::a_tag_text;
use crate::lexer::model::lemma_a_tag_end_bounds;
use crate::lexer::model::lemma_bare_end_bounds;
use crate::lexer::model::lemma_line_end_bounds;
use crate::lexer::model::lemma_multitag_end_bounds;
use crate::lexer::model::lemma_newline_run_end_stop;
use crate::lexer::model::lemma_simple_end_bounds;
use crate::lexer::model::lemma_spacing_end_bounds;
use crate::lexer::model::lemma_spacing_end_stop;
use crate::lexer::model::line_end;
use crate::lexer::model::line_toks;
use crate::lexer::model::line_view;
use crate::lexer::model::lines_body;
use crate::lexer::model::lines_view;
use crate::lexer::model::multitag_end;
use crate::lexer::model::multitag_texts;
use crate::lexer::model::newline_run_end;
use crate::lexer::model::simple_end;
use crate::lexer::model::spacing_end;
use crate::lexer::model::tag_tokens;
use crate::lexer::TokenView;
use crate::tree::model::builder_wf;
use crate::tree::model::cat_upto;
use crate::tree::model::close_v;
use crate::tree::model::dedent_v;
use crate::tree::model::indent_v;
use crate::tree::model::lemma_cat_upto_prefix;
use crate::tree::model::lemma_rise_wf;
use crate::tree::model::rise_v;
use crate::tree::model::total_indent;
use crate::tree::model::BuilderView;
use crate::tree::BuildError;

verus! {

/// Indentation tokens preserve exact whitespace, so two indentations
/// that a human might consider equal are a structural mismatch: a line
/// whose indentation neither equals the current total prefix, nor
/// extends it textually, nor truncates it textually, is rejected with
/// `IndentMismatch`, and the builder state is untouched.
pub proof fn indent_rejects_unrelated(b: BuilderView, text: Seq<char>)
    requires
        text != total_indent(b.stack),
        !(text.len() > total_indent(b.stack).len() && text.subrange(
            0,
            total_indent(b.stack).len() as int,
        ) == total_indent(b.stack)),
        !(text.len() < total_indent(b.stack).len() && total_indent(b.stack).subrange(
            0,
            text.len() as int,
        ) == text),
    ensures
        indent_v(b, text) == (b, Some(BuildError::IndentMismatch)),
{
}

/// A line dedenting to an indentation string that matches no level
/// boundary of the stack (it is not the concatenation of any leading
/// run of levels) is rejected with `IndentMismatch`.
pub proof fn dedent_rejects_off_boundary(b: BuilderView, text: Seq<char>)
    requires
        forall|j: int| 0 <= j <= b.stack.len() ==> cat_upto(b.stack, j) != text,
    ensures
        dedent_v(b, text).1 == Some(BuildError::IndentMismatch),
    decreases b.stack.len(),
{
    let tot = total_indent(b.stack);
    if tot.len() <= text.len() {
        assert(cat_upto(b.stack, b.stack.len() as int) != text);
    } else {
        let b2 = rise_v(b);
        assert forall|j: int| 0 <= j <= b2.stack.len() implies cat_upto(b2.stack, j) != text by {
            lemma_cat_upto_prefix(b2.stack, b.stack, j);
        }
        dedent_rejects_off_boundary(b2, text);
    }
}

/// A `)` met while the innermost open scope owns indentation text (it
/// was opened by a dive, not by `(` or `:`) is rejected with
/// `MismatchedClose`, and the builder state is untouched.
pub proof fn close_rejects_indent_scope(b: BuilderView)
    requires
        b.stack.len() > 0,
        b.stack.last().len() != 0,
    ensures
        close_v(b) == (b, Some(BuildError::MismatchedClose)),
{
}

/// A `)` with no open scope at all is rejected with `UnbalancedClose`,
/// and the builder state is untouched.
pub proof fn close_rejects_empty_stack(b: BuilderView)
    requires
        b.stack.len() == 0,
    ensures
        close_v(b) == (b, Some(BuildError::UnbalancedClose)),
{
}

/// A line that is not blank lexes to at least one token.
pub proof fn lemma_line_view_nonempty(s: Seq<char>, i: int, keep: bool)
    requires
        0 <= i < s.len(),
        !is_newline_char(s[i]),
    ensures
        line_view(s, i, keep).len() > 0,
{
    let j = spacing_end(s, i);
    lemma_spacing_end_bounds(s, i);
    lemma_spacing_end_stop(s, i);
    if j > i || keep {
    } else {
        assert(j == i);
        assert(!is_space_char(s[i]));
        if s[i] == '(' || s[i] == ')' || s[i] == ':' {
        } else if is_tag_start(s, spacing_end(s, i)) {
            assert(multitag_texts(s, i).len() > 0);
        } else if s[i] == '"' {
        } else {
            assert(is_simple_char(s[i]));
            assert(is_tag_start(s, i));
            assert(false);
        }
    }
}

/// The characters a "plain words" input may hold: word characters
/// (anything bare), the space separator, and the line feed terminator.
pub open spec fn is_word_input_char(c: char) -> bool {
    is_bare_char(c) || c == ' ' || c == '\n'
}

/// A plain-words region from `i` on: word characters only, and no
/// space directly before a line feed or before the end of the input.
pub open spec fn word_region(s: Seq<char>, i: int) -> bool {
    &&& (forall|k: int| i <= k < s.len() ==> is_word_input_char(#[trigger] s[k]))
    &&& (forall|k: int|
        i <= k < s.len() && #[trigger] s[k] == ' ' ==> k + 1 < s.len() && s[k + 1] != '\n')
}

/// The space-separated words of one line, from `i` to its line feed.
pub open spec fn words_from(s: Seq<char>, i: int) -> Seq<Seq<char>>
    decreases s.len() - i,
    when 0 <= i <= s.len()
{
    let j = spacing_end(s, i);
    if j >= s.len() || !is_simple_char(s[j]) {
        Seq::empty()
    } else {
        proof {
            lemma_spacing_end_bounds(s, i);
            lemma_simple_end_bounds(s, j + 1);
        }
        seq![s.subrange(j, simple_end(s, j))] + words_from(s, simple_end(s, j))
    }
}

/// On a word region the bare-escaped scan is just the simple scan: no
/// escapes occur, so the text is taken verbatim.
proof fn lemma_bare_is_simple(s: Seq<char>, i: int)
    requires
        0 <= i <= s.len(),
        word_region(s, i),
    ensures
        bare_ok(s, i),
        bare_end(s, i) == simple_end(s, i),
        bare_text(s, i) == s.subrange(i, simple_end(s, i)),
    decreases s.len() - i,
{
    if i < s.len() && is_bare_char(s[i]) {
        lemma_bare_is_simple(s, i + 1);
        lemma_simple_end_bounds(s, i + 1);
        assert(seq![s[i]] + s.subrange(i + 1, simple_end(s, i + 1)) =~= s.subrange(
            i,
            simple_end(s, i),
        ));
    } else {
        assert(s.subrange(i, i) =~= Seq::<char>::empty());
    }
}

/// On a word region a tag run is exactly the line's words: one tag per
/// word, each verbatim, ending at the line feed (or the end of input).
proof fn lemma_multitag_words(s: Seq<char>, i: int)
    requires
        0 <= i <= s.len(),
        word_region(s, i),
    ensures
        multitag_texts(s, i) == words_from(s, i),
        is_tag_start(s, spacing_end(s, i)) ==> multitag_end(s, i) == s.len() || s[multitag_end(
            s,
            i,
        )] == '\n',
        !is_tag_start(s, spacing_end(s, i)) ==> multitag_end(s, i) == i,
    decreases s.len() - i,
{
    let j = spacing_end(s, i);
    lemma_spacing_end_bounds(s, i);
    lemma_spacing_end_stop(s, i);
    if is_tag_start(s, j) {
        assert(is_simple_char(s[j]));
        assert(is_bare_char(s[j]));
        lemma_bare_is_simple(s, j);
        let e = a_tag_end(s, j);
        assert(e == simple_end(s, j));
        lemma_a_tag_end_bounds(s, j);
        lemma_multitag_words(s, e);
        assert(multitag_texts(s, i) == seq![a_tag_text(s, j)] + multitag_texts(s, e));
        assert(a_tag_text(s, j) == s.subrange(j, simple_end(s, j)));
        if !is_tag_start(s, spacing_end(s, e)) {
            // the run ends here; no trailing spacing means a line feed
            // or the end of the input follows at once
            crate::lexer::model::lemma_simple_end_bounds(s, j);
            if e < s.len() {
                assert(!is_simple_char(s[e]));
                assert(is_word_input_char(s[e]));
                if s[e] == ' ' {
                    let j2 = spacing_end(s, e);
                    lemma_spacing_end_stop(s, e);
                    lemma_spacing_end_bounds(s, e);
                    assert(j2 > e);
                    if j2 < s.len() {
                        assert(s[j2 - 1] == ' ') by {
                            lemma_spacing_run(s, e, j2 - 1);
                        }
                        assert(s[j2] != '\n');
                        assert(is_word_input_char(s[j2]));
                        assert(is_bare_char(s[j2]));
                        assert(is_tag_start(s, j2));
                        assert(false);
                    } else {
                        assert(s[j2 - 1] == ' ') by {
                            lemma_spacing_run(s, e, j2 - 1);
                        }
                        assert(false);
                    }
                }
            }
        }
    } else {
        assert(words_from(s, i) =~= Seq::<Seq<char>>::empty());
        assert(multitag_texts(s, i) =~= Seq::<Seq<char>>::empty());
    }
}

/// Every position within a spacing run holds a spacing character.
proof fn lemma_spacing_run(s: Seq<char>, i: int, k: int)
    requires
        0 <= i <= s.len(),
        i <= k < spacing_end(s, i),
    ensures
        is_space_char(s[k]),
    decreases s.len() - i,
{
    lemma_spacing_end_bounds(s, i);
    if i < s.len() && is_space_char(s[i]) {
        if k > i {
            lemma_spacing_run(s, i + 1, k);
        }
    }
}

/// One plain-words line lexes to exactly one tag token per word, in
/// order, each holding the word verbatim — with no indentation token,
/// since such a line has no indentation.
pub proof fn word_line_law(s: Seq<char>, i: int)
    requires
        0 <= i <= s.len(),
        word_region(s, i),
        i < s.len() ==> s[i] != ' ',
    ensures
        line_view(s, i, false) == tag_tokens(words_from(s, i)),
{
    lemma_spacing_end_stop(s, i);
    assert(spacing_end(s, i) == i);
    lemma_multitag_words(s, i);
    if i >= s.len() || is_newline_char(s[i]) {
        assert(line_toks(s, i) =~= Seq::<TokenView>::empty());
        assert(words_from(s, i) =~= Seq::<Seq<char>>::empty());
        assert(tag_tokens(words_from(s, i)) =~= Seq::<TokenView>::empty());
    } else {
        assert(is_word_input_char(s[i]));
        assert(is_bare_char(s[i]));
        assert(is_tag_start(s, i));
        let e = multitag_end(s, i);
        lemma_multitag_end_bounds(s, i);
        assert(e == s.len() || s[e] == '\n');
        assert(line_toks(s, e) =~= Seq::<TokenView>::empty());
        assert(line_toks(s, i) == tag_tokens(multitag_texts(s, i)) + line_toks(s, e));
        assert(tag_tokens(multitag_texts(s, i)) + Seq::<TokenView>::empty() =~= tag_tokens(
            multitag_texts(s, i),
        ));
    }
}

/// No line after `i` begins with a space: nothing is indented.
pub open spec fn no_indented_lines(s: Seq<char>, i: int) -> bool {
    forall|k: int| i < k < s.len() && #[trigger] s[k] == ' ' ==> s[k - 1] != '\n'
}

/// The lines a plain-words buffer denotes: per physical line, one tag
/// per word.
pub open spec fn word_lines(s: Seq<char>, i: int) -> Seq<Seq<TokenView>>
    decreases s.len() - i,
    when 0 <= i <= s.len()
{
    if i >= s.len() || is_newline_char(s[i]) {
        Seq::empty()
    } else {
        let e = line_end(s, i);
        let k = newline_run_end(s, e);
        if k >= s.len() {
            seq![tag_tokens(words_from(s, i))]
        } else {
            proof {
                lemma_line_end_bounds(s, i);
                crate::lexer::model::lemma_newline_run_end_bounds(s, e);
            }
            seq![tag_tokens(words_from(s, i))] + word_lines(s, k)
        }
    }
}

/// A whole plain-words buffer with no indentation lexes to exactly one
/// line of word tags per physical line.
pub proof fn word_lines_law(s: Seq<char>, i: int)
    requires
        0 <= i <= s.len(),
        word_region(s, i),
        no_indented_lines(s, i),
        i == s.len() || s[i] != '\n',
        i < s.len() ==> s[i] != ' ',
    ensures
        lines_body(s, i, false) == word_lines(s, i),
    decreases s.len() - i,
{
    if i < s.len() {
        word_line_law(s, i);
        lemma_line_end_bounds(s, i);
        let e = line_end(s, i);
        let k = newline_run_end(s, e);
        lemma_newline_run_end_stop(s, e);
        crate::lexer::model::lemma_newline_run_end_bounds(s, e);
        if k >= s.len() {
        } else {
            assert(s[k] != '\n' && !is_newline_char(s[k]));
            assert(k > e);
            if s[k] == ' ' {
                assert(is_newline_char(s[k - 1])) by {
                    lemma_newline_run(s, e, k - 1);
                }
                assert(s[k - 1] == '\n');
                assert(false);
            }
            word_lines_law(s, k);
        }
    }
}

/// A whole plain-words buffer, viewed from the very start: it has no
/// leading blank lines, so what `lex` returns is exactly the word lines.
pub proof fn word_buffer_law(s: Seq<char>)
    requires
        word_region(s, 0),
        no_indented_lines(s, 0),
        s.len() > 0 ==> s[0] != '\n' && s[0] != ' ',
    ensures
        lines_view(s, false) == word_lines(s, 0),
{
    word_lines_law(s, 0);
    assert(newline_run_end(s, 0) == 0);
    assert(lines_view(s, false) =~= lines_body(s, 0, false));
}

/// Every position within a newline run holds a newline character.
proof fn lemma_newline_run(s: Seq<char>, i: int, k: int)
    requires
        0 <= i <= s.len(),
        i <= k < newline_run_end(s, i),
    ensures
        is_newline_char(s[k]),
    decreases s.len() - i,
{
    crate::lexer::model::lemma_newline_run_end_bounds(s, i);
    if i < s.len() && is_newline_char(s[i]) {
        if k > i {
            lemma_newline_run(s, i + 1, k);
        }
    }
}

/// Lexing a buffer that begins with `n` newline characters yields `n`
/// empty lines first; when content follows, its first line is not
/// empty. Leading blank lines are preserved one for one.
pub proof fn leading_blank_lines_law(s: Seq<char>, keep: bool)
    ensures
        ({
            let n = newline_run_end(s, 0);
            &&& lines_view(s, keep).len() >= n
            &&& (forall|k: int|
                0 <= k < n ==> #[trigger] lines_view(s, keep)[k] == Seq::<TokenView>::empty())
            &&& (n < s.len() ==> lines_view(s, keep).len() > n && lines_view(s, keep)[n as int].len()
                > 0)
        }),
{
    let n = newline_run_end(s, 0);
    lemma_newline_run_end_stop(s, 0);
    crate::lexer::model::lemma_newline_run_end_bounds(s, 0);
    assert forall|k: int| 0 <= k < n implies #[trigger] lines_view(s, keep)[k]
        == Seq::<TokenView>::empty() by {
        assert(lines_view(s, keep)[k] == Seq::new(n as nat, |q: int| Seq::<TokenView>::empty())[k]);
    }
    if n < s.len() {
        assert(!is_newline_char(s[n as int]));
        assert(lines_body(s, n as int, keep)[0] == line_view(s, n as int, keep));
        lemma_line_view_nonempty(s, n as int, keep);
        assert(lines_view(s, keep)[n as int] == lines_body(s, n as int, keep)[0]);
    }
}

} // verus!
