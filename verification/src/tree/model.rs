//! The mathematical model of the tree builder: an arena of node slots,
//! a cursor, an indentation stack, and the per-token transition relation
//! that one `turn` follows. The executable builder is proved to track
//! these values exactly.

use vstd::prelude::*;

use crate::lexer::TokenView;
use crate::tree::BuildError;
use crate::tree::NodeView;

verus! {

/// The value of one arena slot: the node's own data, its parent handle
/// (`None` only for the synthetic root in slot 0) and its child handles
/// in discovery order.
#[verifier::ext_equal]
pub struct NoduleView {
    pub name: Seq<char>,
    pub indent: Seq<char>,
    pub line: int,
    pub children: Seq<int>,
    pub parent: Option<int>,
}

/// The value of the whole construction state: the arena, the cursor
/// handle, the indentation stack, and the just-stepped-in flag that
/// keeps a dive from repeating within one scope change.
#[verifier::ext_equal]
pub struct BuilderView {
    pub arena: Seq<NoduleView>,
    pub cursor: int,
    pub stack: Seq<Seq<char>>,
    pub stepped: bool,
}

/// The per-line state while the tokens of one line are consumed: the
/// builder and the number of tag tokens seen so far on the line.
#[verifier::ext_equal]
pub struct TurnView {
    pub b: BuilderView,
    pub tags: int,
}

/// Well-formedness of one arena slot: child handles point strictly
/// forward, the root has no parent and line 0, and every other slot has
/// an earlier parent and a positive line.
pub open spec fn slot_wf(a: Seq<NoduleView>, i: int) -> bool {
    &&& (forall|k: int|
        0 <= k < a[i].children.len() ==> i < #[trigger] a[i].children[k] < a.len())
    &&& (i == 0 ==> a[i].parent is None && a[i].line == 0)
    &&& (i > 0 ==> (a[i].parent matches Some(p) && 0 <= p < i) && a[i].line >= 1)
}

/// Well-formedness of the arena: nonempty, slot 0 the synthetic root,
/// every slot well formed.
pub open spec fn arena_wf(a: Seq<NoduleView>) -> bool {
    &&& a.len() >= 1
    &&& forall|i: int| 0 <= i < a.len() ==> #[trigger] slot_wf(a, i)
}

/// Well-formedness of the whole builder state.
pub open spec fn builder_wf(b: BuilderView) -> bool {
    &&& arena_wf(b.arena)
    &&& 0 <= b.cursor < b.arena.len()
}

/// The builder state every fresh builder starts from: one root slot,
/// the cursor on it, an empty stack.
pub open spec fn initial_builder() -> BuilderView {
    BuilderView {
        arena: seq![
            NoduleView {
                name: Seq::empty(),
                indent: Seq::empty(),
                line: 0,
                children: Seq::empty(),
                parent: None,
            },
        ],
        cursor: 0,
        stack: Seq::empty(),
        stepped: false,
    }
}

/// The concatenation of the first `i` levels of the indentation stack.
pub open spec fn cat_upto(stack: Seq<Seq<char>>, i: int) -> Seq<char>
    decreases i,
{
    if i <= 0 {
        Seq::empty()
    } else {
        cat_upto(stack, i - 1) + stack[i - 1]
    }
}

/// The current total indentation prefix: the concatenation of every
/// level of the stack.
pub open spec fn total_indent(stack: Seq<Seq<char>>) -> Seq<char> {
    cat_upto(stack, stack.len() as int)
}

/// The text of the innermost level alone, the indentation "in effect"
/// recorded on each new node.
pub open spec fn current_level(b: BuilderView) -> Seq<char> {
    if b.stack.len() == 0 {
        Seq::empty()
    } else {
        b.stack.last()
    }
}

pub proof fn lemma_cat_upto_prefix(s1: Seq<Seq<char>>, s2: Seq<Seq<char>>, i: int)
    requires
        0 <= i <= s1.len(),
        i <= s2.len(),
        forall|k: int| 0 <= k < i ==> s1[k] == s2[k],
    ensures
        cat_upto(s1, i) == cat_upto(s2, i),
    decreases i,
{
    if i > 0 {
        lemma_cat_upto_prefix(s1, s2, i - 1);
    }
}



/// Open one nested scope: push a level of indentation text and dive.
/// A dive straight after another dive, with nothing built in between,
/// is ignored, so one scope change moves the cursor at most once. On
/// failure nothing changes.
pub open spec fn dive_v(b: BuilderView, level: Seq<char>) -> (BuilderView, Option<BuildError>) {
    if b.stepped {
        (b, None)
    } else if b.arena[b.cursor].children.len() == 0 {
        (b, Some(BuildError::NothingToEnter))
    } else {
        (
            BuilderView {
                cursor: b.arena[b.cursor].children.last(),
                stack: b.stack.push(level),
                stepped: true,
                ..b
            },
            None,
        )
    }
}

/// Move the cursor to its node's parent (staying put on the root) and
/// drop the innermost stack level.
pub open spec fn rise_v(b: BuilderView) -> BuilderView {
    BuilderView {
        cursor: if b.cursor == 0 {
            0
        } else {
            b.arena[b.cursor].parent->0
        },
        stack: b.stack.drop_last(),
        stepped: false,
        ..b
    }
}

/// Rise one level at a time until the total indentation prefix is no
/// longer than the new text; the dedent is legal exactly when the total
/// then equals the text.
pub open spec fn dedent_v(b: BuilderView, text: Seq<char>) -> (BuilderView, Option<BuildError>)
    decreases b.stack.len(),
{
    let tot = total_indent(b.stack);
    if tot.len() <= text.len() {
        if tot == text {
            (b, None)
        } else {
            (b, Some(BuildError::IndentMismatch))
        }
    } else {
        dedent_v(rise_v(b), text)
    }
}

/// Process an indentation token: no structural change when the text
/// equals the current total; a dive when it properly extends it; rises
/// when it properly truncates it; `IndentMismatch` otherwise.
pub open spec fn indent_v(b: BuilderView, text: Seq<char>) -> (BuilderView, Option<BuildError>) {
    let tot = total_indent(b.stack);
    if text == tot {
        (b, None)
    } else if text.len() > tot.len() && text.subrange(0, tot.len() as int) == tot {
        dive_v(b, text.subrange(tot.len() as int, text.len() as int))
    } else if text.len() < tot.len() && tot.subrange(0, text.len() as int) == text {
        dedent_v(b, text)
    } else {
        (b, Some(BuildError::IndentMismatch))
    }
}

/// Process a close token: the innermost open scope must exist and must
/// be punctuation-driven (an empty stack level).
pub open spec fn close_v(b: BuilderView) -> (BuilderView, Option<BuildError>) {
    if b.stack.len() == 0 {
        (b, Some(BuildError::UnbalancedClose))
    } else if b.stack.last().len() != 0 {
        (b, Some(BuildError::MismatchedClose))
    } else {
        (rise_v(b), None)
    }
}

/// Append a fresh node under the cursor: the new slot goes to the end
/// of the arena and its handle onto the cursor's child list.
pub open spec fn arena_add(
    a: Seq<NoduleView>,
    at: int,
    name: Seq<char>,
    indent: Seq<char>,
    line: int,
) -> Seq<NoduleView> {
    let h = a.len() as int;
    a.update(at, NoduleView { children: a[at].children.push(h), ..a[at] }).push(
        NoduleView { name, indent, line, children: Seq::empty(), parent: Some(at) },
    )
}

/// Add a node made from a tag under the cursor; it records the text of
/// the innermost indentation level and the line it appeared on.
pub open spec fn add_node_v(b: BuilderView, name: Seq<char>, line_no: int) -> BuilderView {
    BuilderView {
        arena: arena_add(b.arena, b.cursor, name, current_level(b), line_no),
        stepped: false,
        ..b
    }
}

/// Process a tag token. The first tag of a line becomes a child of the
/// cursor's node; on the second tag the cursor first dives into the
/// first tag's node, so later tags on the line nest under it.
pub open spec fn tag_v(tv: TurnView, name: Seq<char>, line_no: int) -> (
    TurnView,
    Option<BuildError>,
) {
    let tags2 = tv.tags + 1;
    if tags2 == 2 {
        let (b2, e) = dive_v(tv.b, Seq::empty());
        if e is Some {
            (TurnView { b: tv.b, tags: tags2 }, e)
        } else {
            (TurnView { b: add_node_v(b2, name, line_no), tags: tags2 }, None)
        }
    } else {
        (TurnView { b: add_node_v(tv.b, name, line_no), tags: tags2 }, None)
    }
}

/// Process one token of a line.
pub open spec fn token_v(tv: TurnView, t: TokenView, line_no: int) -> (
    TurnView,
    Option<BuildError>,
) {
    match t {
        TokenView::Indent(text) => {
            let (b2, e) = indent_v(tv.b, text);
            (TurnView { b: b2, ..tv }, e)
        },
        TokenView::Open(_) => {
            let (b2, e) = dive_v(tv.b, Seq::empty());
            (TurnView { b: b2, ..tv }, e)
        },
        TokenView::Close(_) => {
            let (b2, e) = close_v(tv.b);
            (TurnView { b: b2, ..tv }, e)
        },
        TokenView::Tag(text) => tag_v(tv, text, line_no),
        TokenView::Sigspace => (tv, None),
    }
}

/// Process the tokens of a line from position `i` on, stopping at the
/// first error.
pub open spec fn run_toks(tv: TurnView, toks: Seq<TokenView>, i: int, line_no: int) -> (
    TurnView,
    Option<BuildError>,
)
    decreases toks.len() - i,
{
    if i < 0 || i >= toks.len() {
        (tv, None)
    } else {
        let (tv2, e) = token_v(tv, toks[i], line_no);
        if e is Some {
            (tv2, e)
        } else {
            run_toks(tv2, toks, i + 1, line_no)
        }
    }
}

/// Rise out of every scope opened above `base` levels: line-local
/// scopes (parentheses, colons, quotes, and the dive of a second tag)
/// close implicitly when their line ends.
pub open spec fn unwind_v(b: BuilderView, base: int) -> BuilderView
    decreases b.stack.len(),
{
    if b.stack.len() <= base || b.stack.len() == 0 {
        b
    } else {
        unwind_v(rise_v(b), base)
    }
}

/// One whole `turn`: process one line's tokens, then close the scopes
/// the line itself opened. A non-blank line whose first token is not an
/// indentation token is treated as carrying the empty indentation, so a
/// dedent to the left margin still happens. On an error the state stays
/// as the failing token left it, unwound no further.
pub open spec fn turn_line_v(b: BuilderView, toks: Seq<TokenView>, line_no: int) -> (
    BuilderView,
    Option<BuildError>,
) {
    let start = TurnView { b, tags: 0 };
    let first = if toks.len() > 0 && !(toks[0] is Indent) {
        token_v(start, TokenView::Indent(Seq::empty()), line_no)
    } else if toks.len() > 0 && toks[0] is Indent {
        token_v(start, toks[0], line_no)
    } else {
        (start, None)
    };
    if first.1 is Some {
        (first.0.b, first.1)
    } else {
        let base = first.0.b.stack.len() as int;
        let fin = run_toks(first.0, toks, if toks.len() > 0 && toks[0] is Indent { 1int } else { 0int }, line_no);
        if fin.1 is Some {
            (fin.0.b, fin.1)
        } else {
            (unwind_v(fin.0.b, base), None)
        }
    }
}


pub proof fn lemma_dive_wf(b: BuilderView, level: Seq<char>)
    requires
        builder_wf(b),
    ensures
        builder_wf(dive_v(b, level).0),
        dive_v(b, level).0.arena == b.arena,
        dive_v(b, level).1 is Some ==> dive_v(b, level).0 == b,
{
    if !b.stepped && b.arena[b.cursor].children.len() > 0 {
        assert(slot_wf(b.arena, b.cursor));
        let cs = b.arena[b.cursor].children;
        assert(b.cursor < cs[cs.len() - 1] < b.arena.len());
    }
}

pub proof fn lemma_rise_wf(b: BuilderView)
    requires
        builder_wf(b),
    ensures
        builder_wf(rise_v(b)),
        rise_v(b).arena == b.arena,
{
    if b.cursor != 0 {
        assert(slot_wf(b.arena, b.cursor));
    }
}

pub proof fn lemma_dedent_wf(b: BuilderView, text: Seq<char>)
    requires
        builder_wf(b),
    ensures
        builder_wf(dedent_v(b, text).0),
        dedent_v(b, text).0.arena == b.arena,
    decreases b.stack.len(),
{
    let tot = total_indent(b.stack);
    if tot.len() <= text.len() {
    } else {
        lemma_rise_wf(b);
        lemma_dedent_wf(rise_v(b), text);
    }
}

pub proof fn lemma_add_node_wf(b: BuilderView, name: Seq<char>, line_no: int)
    requires
        builder_wf(b),
        line_no >= 1,
    ensures
        builder_wf(add_node_v(b, name, line_no)),
{
    let a = b.arena;
    let a2 = add_node_v(b, name, line_no).arena;
    assert(slot_wf(a, b.cursor));
    assert forall|i: int| 0 <= i < a2.len() implies #[trigger] slot_wf(a2, i) by {
        if i < a.len() {
            assert(slot_wf(a, i));
            if i == b.cursor {
                assert forall|k: int| 0 <= k < a2[i].children.len() implies i
                    < #[trigger] a2[i].children[k] < a2.len() by {
                    if k < a[i].children.len() {
                        assert(a[i].children[k] == a2[i].children[k]);
                    }
                }
            }
        }
    }
}



pub proof fn lemma_unwind_wf(b: BuilderView, base: int)
    requires
        builder_wf(b),
    ensures
        builder_wf(unwind_v(b, base)),
        unwind_v(b, base).arena == b.arena,
    decreases b.stack.len(),
{
    if b.stack.len() > base && b.stack.len() > 0 {
        lemma_rise_wf(b);
        lemma_unwind_wf(rise_v(b), base);
    }
}


/// The finalized value of the node in slot `h`: its own data with each
/// child handle replaced by that child's finalized value.
pub open spec fn finalize_at(a: Seq<NoduleView>, h: int) -> NodeView
    decreases a.len() - h, 0int,
    when 0 <= h < a.len() && arena_wf(a)
{
    proof {
        assert(slot_wf(a, h));
    }
    NodeView {
        name: a[h].name,
        indent: a[h].indent,
        line: a[h].line,
        children: finalize_children(a, a[h].children, h),
    }
}

/// The finalized values of the slots named by `cs`, each handle greater
/// than `lo`.
pub open spec fn finalize_children(a: Seq<NoduleView>, cs: Seq<int>, lo: int) -> Seq<NodeView>
    decreases a.len() - lo - 1, cs.len() + 1,
    when -1 <= lo < a.len() && arena_wf(a) && (forall|k: int|
        0 <= k < cs.len() ==> lo < #[trigger] cs[k] < a.len())
{
    if cs.len() == 0 {
        Seq::empty()
    } else {
        seq![finalize_at(a, cs[0])] + finalize_children(a, cs.subrange(1, cs.len() as int), lo)
    }
}

} // verus!
