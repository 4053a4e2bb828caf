//! The tree builder: consumes lexed lines one `turn` at a time and grows
//! a tree of tagged nodes under a cursor.

use vstd::prelude::*;

pub mod model;

use crate::lexer::lex;
use crate::lexer::lines_of;
use crate::lexer::model::ends_with_newline;
use crate::lexer::model::lines_view;
use crate::lexer::Line;
use crate::lexer::LexError;
use crate::lexer::Token;
use crate::lexer::TokenView;
use model::add_node_v;
use model::arena_add;
use model::arena_wf;
use model::builder_wf;
use model::cat_upto;
use model::close_v;
use model::current_level;
use model::dedent_v;
use model::dive_v;
use model::finalize_at;
use model::finalize_children;
use model::indent_v;
use model::initial_builder;
use model::lemma_add_node_wf;
use model::lemma_dedent_wf;
use model::lemma_dive_wf;
use model::lemma_rise_wf;
use model::rise_v;
use model::run_toks;
use model::slot_wf;
use model::tag_v;
use model::token_v;
use model::total_indent;
use model::turn_line_v;
use model::unwind_v;
use model::BuilderView;
use model::NoduleView;
use model::TurnView;

verus! {

/// The mathematical value of a [`Node`]: a tree of decoded texts and
/// line numbers.
#[verifier::ext_equal]
pub struct NodeView {
    pub name: Seq<char>,
    pub indent: Seq<char>,
    pub line: int,
    pub children: Seq<NodeView>,
}

/// A finalized tree node: a decoded tag, the indentation text in effect
/// when the node was created, its 1-based source line, and its children
/// in discovery order. Only the synthetic root has `line == 0`.
#[derive(Debug, PartialEq, Eq)]
pub struct Node {
    pub name: String,
    pub indent: String,
    pub line: usize,
    pub children: Vec<Node>,
}

/// The values of a sequence of nodes.
pub open spec fn nodes_view(v: Seq<Node>) -> Seq<NodeView>
    decreases v,
{
    if v.len() == 0 {
        Seq::empty()
    } else {
        proof {
            vstd::seq::axiom_seq_index_decreases(v, 0);
            vstd::seq::axiom_seq_subrange_decreases(v, 1, v.len() as int);
        }
        seq![v[0]@] + nodes_view(v.subrange(1, v.len() as int))
    }
}

pub proof fn lemma_nodes_view(v: Seq<Node>)
    ensures
        nodes_view(v).len() == v.len(),
        forall|i: int| 0 <= i < v.len() ==> #[trigger] nodes_view(v)[i] == v[i]@,
    decreases v.len(),
{
    if v.len() > 0 {
        let tail = v.subrange(1, v.len() as int);
        lemma_nodes_view(tail);
        assert(nodes_view(v) == seq![v[0]@] + nodes_view(tail));
        assert forall|i: int| 0 <= i < v.len() implies #[trigger] nodes_view(v)[i] == v[i]@ by {
            if i == 0 {
                assert(nodes_view(v)[0] == v[0]@);
            } else {
                assert(nodes_view(v)[i] == nodes_view(tail)[i - 1]);
                assert(tail[i - 1] == v[i]);
            }
        }
    }
}

impl View for Node {
    type V = NodeView;

    open spec fn view(&self) -> NodeView
        decreases self,
    {
        proof {
            vstd::std_specs::vec::axiom_vec_decreases_to_view(self.children);
        }
        NodeView {
            name: self.name@,
            indent: self.indent@,
            line: self.line as int,
            children: nodes_view(self.children@),
        }
    }
}

impl Node {
    /// Make a fresh leaf node. Line 0 is reserved for the synthetic root
    /// and may not be used for a node made here.
    pub fn new(name: String, indent: String, line: usize) -> (r: Node)
        requires
            line != 0,
        ensures
            r.name@ == name@,
            r.indent@ == indent@,
            r.line == line,
            r.children@.len() == 0,
    {
        Node { name, indent, line, children: Vec::new() }
    }

    /// Whether this node is the synthetic root.
    pub fn is_root(&self) -> (r: bool)
        ensures
            r == (self.line == 0),
    {
        self.line == 0
    }
}

impl Default for Node {
    /// The synthetic root: empty name and indentation, line 0, no
    /// children.
    fn default() -> (r: Node)
        ensures
            r.name@ == Seq::<char>::empty(),
            r.indent@ == Seq::<char>::empty(),
            r.line == 0,
            r.children@.len() == 0,
    {
        Node { name: String::new(), indent: String::new(), line: 0, children: Vec::new() }
    }
}

/// The errors a `turn` can report. Structural errors are returned to the
/// caller; none aborts the process.
#[derive(Clone, Copy, Debug, PartialEq, Eq, Structural)]
pub enum BuildError {
    /// A line's indentation is neither equal to, an extension of, nor a
    /// truncation of the current total indentation prefix.
    IndentMismatch,
    /// A `)` was met while the innermost open scope was indentation-based
    /// rather than punctuation-based.
    MismatchedClose,
    /// A `)` with no open scope at all.
    UnbalancedClose,
    /// A dive (indentation extension or punctuation open) was asked for
    /// while the cursor's node has no child to descend into.
    NothingToEnter,
}

/// A handle into the builder's node table. Slot 0 is the synthetic root.
#[derive(Clone, Copy, Debug, PartialEq, Eq, Structural)]
pub struct Protonode(pub usize);

impl Protonode {
    /// Whether this handle names the synthetic root.
    pub fn is_root(&self) -> (r: bool)
        ensures
            r == (self.0 == 0),
    {
        self.0 == 0
    }
}

/// One slot of the builder's node table: the node's own data, the
/// handles of its children in discovery order, and its parent's handle
/// (`None` only for the synthetic root).
#[derive(Debug)]
pub struct Protonodule {
    pub node: Node,
    pub children: Vec<Protonode>,
    pub parent: Option<Protonode>,
}

impl View for Protonodule {
    type V = NoduleView;

    open spec fn view(&self) -> NoduleView {
        NoduleView {
            name: self.node.name@,
            indent: self.node.indent@,
            line: self.node.line as int,
            children: Seq::new(self.children@.len(), |k: int| self.children@[k].0 as int),
            parent: match self.parent {
                Some(p) => Some(p.0 as int),
                None => None,
            },
        }
    }
}

/// The values of the builder's node table.
pub open spec fn nodules_view(v: Seq<Protonodule>) -> Seq<NoduleView> {
    Seq::new(v.len(), |i: int| v[i]@)
}

/// The texts of the indentation stack.
pub open spec fn strings_view(v: Seq<String>) -> Seq<Seq<char>> {
    Seq::new(v.len(), |i: int| v[i]@)
}

impl Protonodule {
    /// Make a fresh slot for `node` under the given parent, with no
    /// children yet.
    pub fn new(node: Node, parent: Protonode) -> (r: Protonodule)
        ensures
            r@.name == node@.name,
            r@.indent == node@.indent,
            r@.line == node@.line,
            r@.children == Seq::<int>::empty(),
            r@.parent == Some(parent.0 as int),
    {
        let r = Protonodule { node, children: Vec::new(), parent: Some(parent) };
        proof {
            assert(r@.children =~= Seq::<int>::empty());
        }
        r
    }

    /// Whether this slot has no children.
    pub fn is_empty(&self) -> (r: bool)
        ensures
            r == (self@.children.len() == 0),
    {
        self.children.len() == 0
    }

    /// The handle of the most recently added child.
    pub fn last_child(&self) -> (r: Protonode)
        requires
            self@.children.len() > 0,
        ensures
            r.0 as int == self@.children.last(),
    {
        self.children[self.children.len() - 1]
    }

    /// Append a child handle.
    pub fn add_child(&mut self, protonode: Protonode)
        ensures
            final(self)@.children == old(self)@.children.push(protonode.0 as int),
            final(self)@.name == old(self)@.name,
            final(self)@.indent == old(self)@.indent,
            final(self)@.line == old(self)@.line,
            final(self)@.parent == old(self)@.parent,
    {
        self.children.push(protonode);
        proof {
            assert(self@.children =~= old(self)@.children.push(protonode.0 as int));
        }
    }

    /// The parent handle, `None` for the synthetic root.
    pub fn parent(&self) -> (r: Option<Protonode>)
        ensures
            r matches Some(p) ==> self@.parent == Some(p.0 as int),
            r is None ==> self@.parent is None,
    {
        self.parent
    }

    /// Snapshot this slot's subtree as an immutable [`Node`], resolving
    /// its child handles through the node table.
    pub fn finalise(&self, arena: &Vec<Protonodule>) -> (r: Node)
        requires
            arena_wf(nodules_view(arena@)),
            forall|k: int|
                0 <= k < self@.children.len() ==> 0 <= #[trigger] self@.children[k]
                    < arena@.len(),
        ensures
            r@ == (NodeView {
                name: self@.name,
                indent: self@.indent,
                line: self@.line,
                children: finalize_children(nodules_view(arena@), self@.children, -1),
            }),
    {
        let ghost av = nodules_view(arena@);
        let ghost cs = self@.children;
        let name = self.node.name.clone();
        let indent = self.node.indent.clone();
        let line = self.node.line;
        let mut children: Vec<Node> = Vec::new();
        let mut k: usize = 0;
        proof {
            lemma_nodes_view(children@);
            assert(cs.subrange(0, cs.len() as int) =~= cs);
            assert(nodes_view(children@) =~= Seq::<NodeView>::empty());
            assert(Seq::<NodeView>::empty() + finalize_children(av, cs, -1) =~= finalize_children(
                av,
                cs,
                -1,
            ));
        }
        while k < self.children.len()
            invariant
                0 <= k <= self.children@.len(),
                cs == self@.children,
                av == nodules_view(arena@),
                arena_wf(av),
                forall|q: int| 0 <= q < cs.len() ==> 0 <= #[trigger] cs[q] < av.len(),
                finalize_children(av, cs, -1) == nodes_view(children@) + finalize_children(
                    av,
                    cs.subrange(k as int, cs.len() as int),
                    -1,
                ),
            decreases self.children@.len() - k,
        {
            let ch = self.children[k];
            proof {
                assert(cs[k as int] == ch.0 as int);
                assert(cs.subrange(k as int, cs.len() as int)[0] == cs[k as int]);
                assert(cs.subrange(k as int, cs.len() as int).subrange(
                    1,
                    cs.subrange(k as int, cs.len() as int).len() as int,
                ) =~= cs.subrange(k + 1, cs.len() as int));
            }
            let sub = ch.finalise(arena);
            let ghost ch0 = children@;
            children.push(sub);
            proof {
                lemma_nodes_view(ch0);
                lemma_nodes_view(children@);
                assert(nodes_view(children@) =~= nodes_view(ch0) + seq![sub@]);
                assert((nodes_view(ch0) + seq![sub@]) + finalize_children(
                    av,
                    cs.subrange(k + 1, cs.len() as int),
                    -1,
                ) =~= nodes_view(ch0) + (seq![sub@] + finalize_children(
                    av,
                    cs.subrange(k + 1, cs.len() as int),
                    -1,
                )));
            }
            k = k + 1;
        }
        proof {
            assert(cs.subrange(k as int, cs.len() as int) =~= Seq::<int>::empty());
            assert(finalize_children(av, cs.subrange(k as int, cs.len() as int), -1)
                =~= Seq::<NodeView>::empty());
            assert(nodes_view(children@) + Seq::<NodeView>::empty() =~= nodes_view(children@));
        }
        let r = Node { name, indent, line, children };
        proof {
            assert(r@ =~= NodeView {
                name: self@.name,
                indent: self@.indent,
                line: self@.line,
                children: finalize_children(av, cs, -1),
            });
        }
        r
    }
}

impl Protonode {
    /// The handle of the most recently added child of this handle's
    /// node, if it has one.
    pub fn child(&self, arena: &Vec<Protonodule>) -> (r: Option<Protonode>)
        requires
            self.0 < arena@.len(),
        ensures
            ({
                let cs = nodules_view(arena@)[self.0 as int].children;
                match r {
                    Some(c) => cs.len() > 0 && c.0 as int == cs.last(),
                    None => cs.len() == 0,
                }
            }),
    {
        let nod = &arena[self.0];
        if nod.children.len() == 0 {
            None
        } else {
            Some(nod.children[nod.children.len() - 1])
        }
    }

    /// The parent handle of this handle's node, `None` for the root.
    pub fn parent(&self, arena: &Vec<Protonodule>) -> (r: Option<Protonode>)
        requires
            self.0 < arena@.len(),
        ensures
            ({
                let p = nodules_view(arena@)[self.0 as int].parent;
                match r {
                    Some(c) => p == Some(c.0 as int),
                    None => p is None,
                }
            }),
    {
        arena[self.0].parent()
    }

    /// Add `node` to the table as the newest child of this handle's
    /// node. Line 0 is reserved for the root, which is never added here.
    pub fn add_node(&self, arena: &mut Vec<Protonodule>, node: Node)
        requires
            self.0 < old(arena)@.len(),
            node@.line >= 1,
        ensures
            nodules_view(final(arena)@) == arena_add(
                nodules_view(old(arena)@),
                self.0 as int,
                node@.name,
                node@.indent,
                node@.line,
            ),
    {
        let ghost a0 = nodules_view(arena@);
        let h = Protonode(arena.len());
        let fresh = Protonodule::new(node, *self);
        let slot = &mut arena[self.0];
        slot.add_child(h);
        arena.push(fresh);
        proof {
            assert(nodules_view(arena@) =~~= arena_add(
                a0,
                self.0 as int,
                fresh@.name,
                fresh@.indent,
                fresh@.line,
            ));
        }
    }

    /// Snapshot the subtree rooted at this handle as an immutable
    /// [`Node`].
    pub fn finalise(&self, arena: &Vec<Protonodule>) -> (r: Node)
        requires
            arena_wf(nodules_view(arena@)),
            self.0 < arena@.len(),
        ensures
            r@ == finalize_at(nodules_view(arena@), self.0 as int),
        decreases arena@.len() - self.0,
    {
        let ghost av = nodules_view(arena@);
        let ghost h = self.0 as int;
        proof {
            assert(slot_wf(av, h));
        }
        let nod = &arena[self.0];
        let ghost cs = av[h].children;
        let name = nod.node.name.clone();
        let indent = nod.node.indent.clone();
        let line = nod.node.line;
        let mut children: Vec<Node> = Vec::new();
        let mut k: usize = 0;
        proof {
            lemma_nodes_view(children@);
            assert(cs.subrange(0, cs.len() as int) =~= cs);
            assert(nodes_view(children@) =~= Seq::<NodeView>::empty());
            assert(Seq::<NodeView>::empty() + finalize_children(av, cs, h) =~= finalize_children(
                av,
                cs,
                h,
            ));
        }
        while k < nod.children.len()
            invariant
                0 <= k <= nod.children@.len(),
                h == self.0 as int,
                nod@ == av[h],
                cs == av[h].children,
                cs.len() == nod.children@.len(),
                av == nodules_view(arena@),
                arena_wf(av),
                0 <= h < av.len(),
                slot_wf(av, h),
                finalize_children(av, cs, h) == nodes_view(children@) + finalize_children(
                    av,
                    cs.subrange(k as int, cs.len() as int),
                    h,
                ),
            decreases nod.children@.len() - k,
        {
            let ch = nod.children[k];
            proof {
                assert(cs[k as int] == ch.0 as int);
                assert(h < cs[k as int] < av.len());
                assert(cs.subrange(k as int, cs.len() as int)[0] == cs[k as int]);
                assert(cs.subrange(k as int, cs.len() as int).subrange(
                    1,
                    cs.subrange(k as int, cs.len() as int).len() as int,
                ) =~= cs.subrange(k + 1, cs.len() as int));
            }
            let sub = ch.finalise(arena);
            let ghost ch0 = children@;
            children.push(sub);
            proof {
                lemma_nodes_view(ch0);
                lemma_nodes_view(children@);
                assert(nodes_view(children@) =~= nodes_view(ch0) + seq![sub@]);
                assert((nodes_view(ch0) + seq![sub@]) + finalize_children(
                    av,
                    cs.subrange(k + 1, cs.len() as int),
                    h,
                ) =~= nodes_view(ch0) + (seq![sub@] + finalize_children(
                    av,
                    cs.subrange(k + 1, cs.len() as int),
                    h,
                )));
            }
            k = k + 1;
        }
        proof {
            assert(cs.subrange(k as int, cs.len() as int) =~= Seq::<int>::empty());
            assert(finalize_children(av, cs.subrange(k as int, cs.len() as int), h)
                =~= Seq::<NodeView>::empty());
            assert(nodes_view(children@) + Seq::<NodeView>::empty() =~= nodes_view(children@));
        }
        let r = Node { name, indent, line, children };
        proof {
            assert(r@ =~= finalize_at(av, h));
        }
        r
    }
}

/// The tree builder itself: the lexed lines still to be consumed, the
/// node table with the synthetic root in slot 0, the cursor, and the
/// indentation stack. `turn` processes one line at a time; `finalise`
/// snapshots the tree built so far.
#[derive(Debug)]
pub struct Termpose {
    pub tokens: Vec<Line>,
    pub arena: Vec<Protonodule>,
    pub node: Protonode,
    pub current_line: usize,
    pub indent_stack: Vec<String>,
    pub just_stepped_in: bool,
}

impl Termpose {
    /// The builder state this value denotes.
    pub open spec fn builder(&self) -> BuilderView {
        BuilderView {
            arena: nodules_view(self.arena@),
            cursor: self.node.0 as int,
            stack: strings_view(self.indent_stack@),
            stepped: self.just_stepped_in,
        }
    }

    /// Well-formedness: the node table and the cursor are sound.
    pub open spec fn wf(&self) -> bool {
        builder_wf(self.builder())
    }
}

impl Default for Termpose {
    /// A fresh builder: no lines loaded, the cursor on the synthetic
    /// root, an empty indentation stack.
    fn default() -> (r: Termpose)
        ensures
            r.wf(),
            r.builder() == initial_builder(),
            r.tokens@ == Seq::<Line>::empty(),
            r.current_line == 0,
    {
        let root = Protonodule { node: Node::default(), children: Vec::new(), parent: None };
        let mut arena: Vec<Protonodule> = Vec::new();
        arena.push(root);
        let r = Termpose {
            tokens: Vec::new(),
            arena,
            node: Protonode(0),
            current_line: 0,
            indent_stack: Vec::new(),
            just_stepped_in: false,
        };
        proof {
            assert(r.builder() =~~= initial_builder());
            assert forall|i: int| 0 <= i < r.builder().arena.len() implies #[trigger] slot_wf(
                r.builder().arena,
                i,
            ) by {
                assert(r.builder().arena[0].children.len() == 0);
            }
        }
        r
    }
}

impl Termpose {
    /// Append lexed lines to the pending queue.
    pub fn load(&mut self, toks: Vec<Line>)
        ensures
            final(self).tokens@ == old(self).tokens@ + toks@,
            final(self).builder() == old(self).builder(),
            final(self).current_line == old(self).current_line,
    {
        let mut toks = toks;
        let ghost t0 = self.tokens@;
        let ghost moved = toks@;
        loop
            invariant
                t0 + moved == self.tokens@ + toks@,
                self.arena == old(self).arena,
                self.node == old(self).node,
                self.indent_stack == old(self).indent_stack,
                self.just_stepped_in == old(self).just_stepped_in,
                self.current_line == old(self).current_line,
            ensures
                toks@.len() == 0,
                t0 + moved == self.tokens@,
                self.arena == old(self).arena,
                self.node == old(self).node,
                self.indent_stack == old(self).indent_stack,
                self.just_stepped_in == old(self).just_stepped_in,
                self.current_line == old(self).current_line,
            decreases toks@.len(),
        {
            if toks.len() == 0 {
                proof {
                    assert(self.tokens@ + toks@ =~= self.tokens@);
                }
                break ;
            }
            let ghost a0 = self.tokens@;
            let ghost b0 = toks@;
            let tok = toks.remove(0);
            self.tokens.push(tok);
            proof {
                assert(a0 + b0 =~= self.tokens@ + toks@);
            }
        }
    }

    /// Lex a complete buffer and append its lines. Fails only when the
    /// input does not end in a newline; nothing changes then.
    pub fn load_str(&mut self, input: &str) -> (r: Result<(), LexError>)
        ensures
            r is Ok <==> ends_with_newline(input@),
            r is Ok ==> {
                &&& lines_of(final(self).tokens@) == lines_of(old(self).tokens@) + lines_view(
                    input@,
                    false,
                )
                &&& final(self).builder() == old(self).builder()
                &&& final(self).current_line == old(self).current_line
            },
            r matches Err(e) ==> e == LexError::Incomplete && *final(self) == *old(self),
    {
        match lex(input) {
            Ok(ls) => {
                let ghost lsv = ls@;
                self.load(ls);
                proof {
                    assert(lines_of(old(self).tokens@ + lsv) =~= lines_of(old(self).tokens@)
                        + lines_of(lsv));
                }
                Ok(())
            },
            Err(e) => Err(e),
        }
    }

    /// Make a builder and load it from a string in one step.
    pub fn new_from_str(input: &str) -> (r: Result<Termpose, LexError>)
        ensures
            r is Ok <==> ends_with_newline(input@),
            r matches Ok(t) ==> {
                &&& t.wf()
                &&& t.builder() == initial_builder()
                &&& t.current_line == 0
                &&& lines_of(t.tokens@) == lines_view(input@, false)
            },
            r matches Err(e) ==> e == LexError::Incomplete,
    {
        let mut pose = Termpose::default();
        let ghost empty_tokens = pose.tokens@;
        match pose.load_str(input) {
            Ok(()) => {
                proof {
                    assert(lines_of(empty_tokens) =~= Seq::<Seq<TokenView>>::empty());
                    assert(Seq::<Seq<TokenView>>::empty() + lines_view(input@, false)
                        =~= lines_view(input@, false));
                }
                Ok(pose)
            },
            Err(e) => Err(e),
        }
    }

    /// The text of the innermost indentation level, recorded on each
    /// node made while it is in effect.
    fn current_indent(&self) -> (r: String)
        ensures
            r@ == current_level(self.builder()),
    {
        if self.indent_stack.len() == 0 {
            String::new()
        } else {
            self.indent_stack[self.indent_stack.len() - 1].clone()
        }
    }

    /// Move the cursor to its node's parent, clearing the dive flag.
    /// Reports whether there was a parent to move to.
    fn step_out(&mut self) -> (r: bool)
        requires
            old(self).wf(),
        ensures
            ({
                let b = old(self).builder();
                let c2 = if b.cursor == 0 {
                    0
                } else {
                    b.arena[b.cursor].parent->0
                };
                &&& final(self).builder() == (BuilderView { cursor: c2, stepped: false, ..b })
                &&& r == (b.cursor != 0)
                &&& final(self).tokens == old(self).tokens
                &&& final(self).current_line == old(self).current_line
                &&& final(self).wf()
            }),
    {
        self.just_stepped_in = false;
        let cur = self.node.0;
        proof {
            assert(slot_wf(nodules_view(self.arena@), cur as int));
        }
        if cur == 0 {
            proof {
                assert(final(self).builder() =~~= (BuilderView {
                    cursor: 0,
                    stepped: false,
                    ..old(self).builder()
                }));
            }
            return false;
        }
        let nod = &self.arena[cur];
        match nod.parent {
            Some(p) => {
                self.node = p;
                proof {
                    assert(final(self).builder() =~~= (BuilderView {
                        cursor: old(self).builder().arena[cur as int].parent->0,
                        stepped: false,
                        ..old(self).builder()
                    }));
                }
                true
            },
            None => {
                proof {
                    assert(false);
                }
                false
            },
        }
    }

    /// Snapshot the whole tree built so far as an immutable root
    /// [`Node`]; the builder can keep turning afterwards.
    pub fn finalise(&self) -> (r: Node)
        requires
            self.wf(),
        ensures
            r@ == finalize_at(self.builder().arena, 0),
    {
        Protonode(0).finalise(&self.arena)
    }
}

/// Compare two strings character by character.
fn str_eq(a: &str, b: &str) -> (r: bool)
    ensures
        r == (a@ == b@),
{
    let na = a.unicode_len();
    let nb = b.unicode_len();
    if na != nb {
        proof {
            if a@ == b@ {
                assert(a@.len() == b@.len());
            }
        }
        return false;
    }
    let mut i: usize = 0;
    while i < na
        invariant
            i <= na,
            na == a@.len(),
            nb == b@.len(),
            na == nb,
            forall|k: int| 0 <= k < i ==> a@[k] == b@[k],
        decreases na - i,
    {
        let ca = a.get_char(i);
        let cb = b.get_char(i);
        if ca != cb {
            proof {
                assert(a@[i as int] != b@[i as int]);
            }
            return false;
        }
        i = i + 1;
    }
    proof {
        assert(a@ =~= b@);
    }
    true
}

/// Whether `a` is a prefix of `b`, character for character.
fn str_is_prefix(a: &str, b: &str) -> (r: bool)
    ensures
        r == (a@.len() <= b@.len() && b@.subrange(0, a@.len() as int) == a@),
{
    let na = a.unicode_len();
    let nb = b.unicode_len();
    if na > nb {
        return false;
    }
    let mut i: usize = 0;
    while i < na
        invariant
            i <= na,
            na <= nb,
            na == a@.len(),
            nb == b@.len(),
            forall|k: int| 0 <= k < i ==> a@[k] == b@[k],
        decreases na - i,
    {
        let ca = a.get_char(i);
        let cb = b.get_char(i);
        if ca != cb {
            proof {
                assert(b@.subrange(0, a@.len() as int)[i as int] == b@[i as int]);
            }
            return false;
        }
        i = i + 1;
    }
    proof {
        assert(b@.subrange(0, a@.len() as int) =~= a@);
    }
    true
}

impl Termpose {
    /// The concatenation of every level of the indentation stack: the
    /// total indentation prefix in effect.
    fn total_indent_str(&self) -> (r: String)
        ensures
            r@ == total_indent(self.builder().stack),
    {
        let ghost stackv = strings_view(self.indent_stack@);
        let mut out = String::new();
        let mut i: usize = 0;
        while i < self.indent_stack.len()
            invariant
                i <= self.indent_stack@.len(),
                stackv == strings_view(self.indent_stack@),
                stackv.len() == self.indent_stack@.len(),
                out@ == cat_upto(stackv, i as int),
            decreases self.indent_stack@.len() - i,
        {
            let piece = &self.indent_stack[i];
            proof {
                assert(stackv[i as int] == self.indent_stack@[i as int]@);
            }
            out.append(piece.as_str());
            i = i + 1;
        }
        out
    }

    /// Open one nested scope whose own indentation text is `level`:
    /// dive into the cursor's most recent child and push the level.
    fn apply_dive(&mut self, level: String) -> (r: Option<BuildError>)
        requires
            old(self).wf(),
        ensures
            ({
                let (b2, e) = dive_v(old(self).builder(), level@);
                &&& final(self).builder() == b2
                &&& r == e
                &&& final(self).tokens == old(self).tokens
                &&& final(self).current_line == old(self).current_line
                &&& final(self).wf()
            }),
    {
        proof {
            lemma_dive_wf(old(self).builder(), level@);
        }
        if self.just_stepped_in {
            return None;
        }
        let cur = self.node.0;
        let no_child = self.arena[cur].children.len() == 0;
        if no_child {
            return Some(BuildError::NothingToEnter);
        }
        let h = {
            let nod = &self.arena[cur];
            nod.children[nod.children.len() - 1]
        };
        proof {
            let av = nodules_view(self.arena@);
            let cs = av[cur as int].children;
            assert(cs[cs.len() - 1] == h.0);
        }
        self.node = h;
        self.just_stepped_in = true;
        self.indent_stack.push(level);
        proof {
            assert(self.builder() =~~= dive_v(old(self).builder(), level@).0);
        }
        None
    }


    /// Rise one level at a time until the total indentation prefix fits
    /// the new text; legal exactly when it then matches the text.
    fn apply_dedent(&mut self, text: &str) -> (r: Option<BuildError>)
        requires
            old(self).wf(),
        ensures
            ({
                let (b2, e) = dedent_v(old(self).builder(), text@);
                &&& final(self).builder() == b2
                &&& r == e
                &&& final(self).tokens == old(self).tokens
                &&& final(self).current_line == old(self).current_line
                &&& final(self).wf()
            }),
    {
        loop
            invariant
                self.wf(),
                dedent_v(old(self).builder(), text@) == dedent_v(self.builder(), text@),
                self.tokens == old(self).tokens,
                self.current_line == old(self).current_line,
            ensures
                ({
                    let (b2, e) = dedent_v(old(self).builder(), text@);
                    self.builder() == b2 && e is None
                }),
                self.wf(),
                self.tokens == old(self).tokens,
                self.current_line == old(self).current_line,
            decreases self.indent_stack@.len(),
        {
            let tot = self.total_indent_str();
            let tlen = text.unicode_len();
            let totlen = tot.as_str().unicode_len();
            if totlen <= tlen {
                if str_eq(text, tot.as_str()) {
                    break ;
                }
                return Some(BuildError::IndentMismatch);
            }
            proof {
                if self.indent_stack@.len() == 0 {
                    assert(total_indent(self.builder().stack).len() == 0);
                }
                lemma_rise_wf(self.builder());
            }
            let ghost bprev = self.builder();
            self.indent_stack.pop();
            self.step_out();
            proof {
                assert(strings_view(self.indent_stack@) =~~= bprev.stack.drop_last());
                assert(self.builder() =~~= rise_v(bprev));
            }
        }
        None
    }

    /// Process one indentation token: compare the text against the
    /// total indentation prefix and stay, dive, or rise accordingly.
    fn apply_indent(&mut self, text: &str) -> (r: Option<BuildError>)
        requires
            old(self).wf(),
        ensures
            ({
                let (b2, e) = indent_v(old(self).builder(), text@);
                &&& final(self).builder() == b2
                &&& r == e
                &&& final(self).tokens == old(self).tokens
                &&& final(self).current_line == old(self).current_line
                &&& final(self).wf()
            }),
    {
        let tot = self.total_indent_str();
        let tlen = text.unicode_len();
        let totlen = tot.as_str().unicode_len();
        if str_eq(text, tot.as_str()) {
            return None;
        }
        if totlen < tlen && str_is_prefix(tot.as_str(), text) {
            let suffix = text.substring_char(totlen, tlen).to_owned();
            proof {
                assert(suffix@ == text@.subrange(
                    total_indent(old(self).builder().stack).len() as int,
                    text@.len() as int,
                ));
            }
            return self.apply_dive(suffix);
        }
        if tlen < totlen && str_is_prefix(text, tot.as_str()) {
            return self.apply_dedent(text);
        }
        Some(BuildError::IndentMismatch)
    }

    /// Process one close token: the innermost open scope must exist and
    /// must be punctuation-driven.
    fn apply_close(&mut self) -> (r: Option<BuildError>)
        requires
            old(self).wf(),
        ensures
            ({
                let (b2, e) = close_v(old(self).builder());
                &&& final(self).builder() == b2
                &&& r == e
                &&& final(self).tokens == old(self).tokens
                &&& final(self).current_line == old(self).current_line
                &&& final(self).wf()
            }),
    {
        proof {
            lemma_rise_wf(old(self).builder());
        }
        let n = self.indent_stack.len();
        if n == 0 {
            return Some(BuildError::UnbalancedClose);
        }
        let top_empty = self.indent_stack[n - 1].as_str().is_empty();
        proof {
            assert(strings_view(self.indent_stack@)[n - 1] == self.indent_stack@[n - 1]@);
        }
        if !top_empty {
            return Some(BuildError::MismatchedClose);
        }
        let ghost bprev = self.builder();
        self.indent_stack.pop();
        self.step_out();
        proof {
            assert(strings_view(self.indent_stack@) =~~= bprev.stack.drop_last());
            assert(self.builder() =~~= rise_v(bprev));
        }
        None
    }
}

/// A token's payload copied out of the pending line, so the borrow of
/// the line ends before the builder state changes.
enum LineTok {
    Ind(String),
    Tg(String),
    Op,
    Cl,
    Sp,
}

impl Termpose {
    /// Process one tag token: make a node from the decoded text, diving
    /// first when this is the second tag of the line.
    fn apply_tag(&mut self, name: String, second: bool, Ghost(tags): Ghost<int>) -> (r: Option<
        BuildError,
    >)
        requires
            old(self).wf(),
            old(self).current_line >= 1,
            second <==> (tags + 1 == 2),
        ensures
            ({
                let tv = TurnView { b: old(self).builder(), tags };
                let (tv2, e) = tag_v(tv, name@, old(self).current_line as int);
                &&& final(self).builder() == tv2.b
                &&& r == e
                &&& final(self).tokens == old(self).tokens
                &&& final(self).current_line == old(self).current_line
                &&& final(self).wf()
            }),
    {
        if second {
            let e = self.apply_dive(String::new());
            if let Some(err) = e {
                return Some(err);
            }
        }
        let ghost mid = self.builder();
        let indent = self.current_indent();
        let line_no = self.current_line;
        let node = Node::new(name, indent, line_no);
        let me = self.node;
        me.add_node(&mut self.arena, node);
        self.just_stepped_in = false;
        proof {
            assert(self.builder() =~~= add_node_v(mid, node@.name, line_no as int));
            lemma_add_node_wf(mid, node@.name, line_no as int);
        }
        None
    }

    /// Process exactly the next unconsumed line, if one is loaded, and
    /// report whether there was one. A structural fault in the line is
    /// returned as a [`BuildError`]; the line still counts as consumed,
    /// and the tree holds whatever was built before the fault.
    pub fn turn(&mut self) -> (r: Result<bool, BuildError>)
        requires
            old(self).wf(),
        ensures
            final(self).wf(),
            final(self).tokens == old(self).tokens,
            old(self).current_line >= old(self).tokens@.len() ==> r == Ok::<bool, BuildError>(
                false,
            ) && final(self).builder() == old(self).builder() && final(self).current_line == old(
                self,
            ).current_line,
            old(self).current_line < old(self).tokens@.len() ==> ({
                let (b2, e) = turn_line_v(
                    old(self).builder(),
                    old(self).tokens@[old(self).current_line as int]@,
                    old(self).current_line + 1,
                );
                &&& final(self).current_line == old(self).current_line + 1
                &&& final(self).builder() == b2
                &&& (match r {
                    Ok(more) => more == true && e is None,
                    Err(err) => e == Some(err),
                })
            }),
    {
        if self.current_line >= self.tokens.len() {
            return Ok(false);
        }
        let ghost b0 = self.builder();
        let line_idx = self.current_line;
        let ghost toksv = self.tokens@[line_idx as int]@;
        self.current_line = self.current_line + 1;
        let line_no = self.current_line;
        let ntoks = self.tokens[line_idx].0.len();
        proof {
            assert(toksv.len() == ntoks);
        }
        let ghost start = TurnView { b: b0, tags: 0 };
        let ghost after_first = if toksv.len() > 0 && !(toksv[0] is Indent) {
            token_v(start, TokenView::Indent(Seq::empty()), line_no as int)
        } else if toksv.len() > 0 && toksv[0] is Indent {
            token_v(start, toksv[0], line_no as int)
        } else {
            (start, None::<BuildError>)
        };
        let ghost idx0: int = if toksv.len() > 0 && toksv[0] is Indent {
            1int
        } else {
            0int
        };
        let mut idx: usize = 0;
        if ntoks > 0 {
            let first_text: Option<String> = {
                let t = &self.tokens[line_idx].0[0];
                match t {
                    Token::Indent(ind) => Some(ind.0.clone()),
                    _ => None,
                }
            };
            proof {
                assert(toksv[0] == self.tokens@[line_idx as int].0@[0]@);
            }
            match first_text {
                Some(text) => {
                    proof {
                        assert(toksv[0] == TokenView::Indent(text@));
                    }
                    let e = self.apply_indent(text.as_str());
                    if let Some(err) = e {
                        return Err(err);
                    }
                    idx = 1;
                },
                None => {
                    proof {
                        reveal_strlit("");
                        assert(""@ =~= Seq::<char>::empty());
                    }
                    let e = self.apply_indent("");
                    if let Some(err) = e {
                        return Err(err);
                    }
                },
            }
        }
        let base = self.indent_stack.len();
        let ghost tv1 = after_first.0;
        proof {
            assert(tv1 == TurnView { b: self.builder(), tags: 0int });
            assert(base as int == tv1.b.stack.len());
        }
        let mut tag_count: usize = 0;
        loop
            invariant
                self.wf(),
                self.tokens == old(self).tokens,
                self.current_line == line_no,
                line_no == old(self).current_line + 1,
                line_no >= 1,
                old(self).current_line < old(self).tokens@.len(),
                line_idx == old(self).current_line,
                toksv == self.tokens@[line_idx as int]@,
                ntoks == toksv.len(),
                idx0 <= idx <= ntoks,
                tag_count <= idx,
                b0 == old(self).builder(),
                after_first == (if toksv.len() > 0 && !(toksv[0] is Indent) {
                    token_v(
                        TurnView { b: b0, tags: 0int },
                        TokenView::Indent(Seq::empty()),
                        line_no as int,
                    )
                } else if toksv.len() > 0 && toksv[0] is Indent {
                    token_v(TurnView { b: b0, tags: 0int }, toksv[0], line_no as int)
                } else {
                    (TurnView { b: b0, tags: 0int }, None::<BuildError>)
                }),
                after_first.1 is None,
                tv1 == after_first.0,
                idx0 == (if toksv.len() > 0 && toksv[0] is Indent {
                    1int
                } else {
                    0int
                }),
                base as int == tv1.b.stack.len(),
                run_toks(tv1, toksv, idx0, line_no as int) == run_toks(
                    TurnView { b: self.builder(), tags: tag_count as int },
                    toksv,
                    idx as int,
                    line_no as int,
                ),
            ensures
                self.wf(),
                self.tokens == old(self).tokens,
                self.current_line == line_no,
                run_toks(tv1, toksv, idx0, line_no as int) == (TurnView {
                    b: self.builder(),
                    tags: tag_count as int,
                }, None::<BuildError>),
            decreases ntoks - idx,
        {
            if idx == ntoks {
                break ;
            }
            let tok = {
                let t = &self.tokens[line_idx].0[idx];
                match t {
                    Token::Indent(ind) => LineTok::Ind(ind.0.clone()),
                    Token::Tag(tg) => LineTok::Tg(tg.0.clone()),
                    Token::Open(_) => LineTok::Op,
                    Token::Close(_) => LineTok::Cl,
                    Token::Sigspace => LineTok::Sp,
                }
            };
            proof {
                assert(toksv[idx as int] == self.tokens@[line_idx as int].0@[idx as int]@);
            }
            let ghost tv_cur = TurnView { b: self.builder(), tags: tag_count as int };
            match tok {
                LineTok::Ind(text) => {
                    proof {
                        assert(toksv[idx as int] == TokenView::Indent(text@));
                    }
                    let e = self.apply_indent(text.as_str());
                    proof {
                        let stp = token_v(tv_cur, toksv[idx as int], line_no as int);
                        assert(stp.0 == TurnView { b: self.builder(), tags: tag_count as int });
                        assert(stp.1 == e);
                    }
                    if let Some(err) = e {
                        return Err(err);
                    }
                },
                LineTok::Tg(text) => {
                    proof {
                        assert(toksv[idx as int] == TokenView::Tag(text@));
                    }
                    let second = tag_count == 1;
                    let e = self.apply_tag(text, second, Ghost(tag_count as int));
                    tag_count = tag_count + 1;
                    proof {
                        let stp = token_v(tv_cur, toksv[idx as int], line_no as int);
                        assert(stp.0.b == self.builder());
                        assert(stp.0.tags == tag_count as int);
                        assert(stp.1 == e);
                    }
                    if let Some(err) = e {
                        return Err(err);
                    }
                },
                LineTok::Op => {
                    proof {
                        assert(toksv[idx as int] is Open);
                    }
                    let e = self.apply_dive(String::new());
                    proof {
                        let stp = token_v(tv_cur, toksv[idx as int], line_no as int);
                        assert(stp.0 == TurnView { b: self.builder(), tags: tag_count as int });
                        assert(stp.1 == e);
                    }
                    if let Some(err) = e {
                        return Err(err);
                    }
                },
                LineTok::Cl => {
                    proof {
                        assert(toksv[idx as int] is Close);
                    }
                    let e = self.apply_close();
                    proof {
                        let stp = token_v(tv_cur, toksv[idx as int], line_no as int);
                        assert(stp.0 == TurnView { b: self.builder(), tags: tag_count as int });
                        assert(stp.1 == e);
                    }
                    if let Some(err) = e {
                        return Err(err);
                    }
                },
                LineTok::Sp => {
                    proof {
                        assert(toksv[idx as int] is Sigspace);
                        let stp = token_v(tv_cur, toksv[idx as int], line_no as int);
                        assert(stp.0 == tv_cur);
                        assert(stp.1 is None);
                    }
                },
            }
            idx = idx + 1;
        }
        let ghost bfin = self.builder();
        loop
            invariant
                self.wf(),
                self.tokens == old(self).tokens,
                self.current_line == line_no,
                unwind_v(bfin, base as int) == unwind_v(self.builder(), base as int),
            ensures
                self.wf(),
                self.tokens == old(self).tokens,
                self.current_line == line_no,
                self.builder() == unwind_v(bfin, base as int),
            decreases self.indent_stack@.len(),
        {
            if self.indent_stack.len() <= base {
                break ;
            }
            proof {
                lemma_rise_wf(self.builder());
            }
            let ghost bprev = self.builder();
            self.indent_stack.pop();
            self.step_out();
            proof {
                assert(strings_view(self.indent_stack@) =~~= bprev.stack.drop_last());
                assert(self.builder() =~~= rise_v(bprev));
            }
        }
        Ok(true)
    }
}

} // verus!
