//! The tree constructor: an insertion-mode state machine that consumes the
//! token sequence and materializes the document tree, using a stack of open
//! elements whose top is the current insertion point.
//!
//! The executable machine is mirrored by the specification functions
//! `spec_insert_char`, `spec_append_element`, `spec_pop` and, over a whole
//! token sequence, `spec_construct`.

use vstd::prelude::*;
use crate::element::Element;
use crate::element::HtmlElementKind;
use crate::element::spec_kind_of_tag;
use crate::html_tokenizer::HtmlToken;
use crate::html_tokenizer::HtmlTokenizer;
use crate::html_tokenizer::TokModel;
use crate::html_tokenizer::TokenModel;
use crate::html_tokenizer::chars_tokens;
use crate::html_tokenizer::spec_fresh_tokenizer;
use crate::html_tokenizer::spec_next;
use crate::html_tokenizer::spec_opt_token;
use crate::html_tokenizer::spec_tokens;
use crate::html_tokenizer::tok_wf;
use crate::node::Node;
use crate::node::NodeArena;
use crate::node::NodeKind;
use crate::node::NodeKindModel;
use crate::node::NodeModel;
use crate::node::arena_wf;
use crate::node::node_links_wf;
use crate::node::owner_links_wf;
use crate::node::spec_append_child;
use crate::node::spec_fresh_node;
use crate::node::spec_text_of;
use crate::text::spec_is_ws;
use crate::text::str_eq;

verus! {

/// The tree constructor's context, governing how the next token affects the
/// tree.
#[derive(Clone, Copy, Debug)]
pub enum InsertionMode {
    Initial,
    BeforeHtml,
    BeforeHead,
    InHead,
    InBody,
    Text,
    AfterHead,
    AfterBody,
}

/// The mathematical state of the tree under construction: the node arena,
/// the stack of open elements, and the insertion mode.
pub ghost struct ParserModel {
    pub nodes: Seq<NodeModel>,
    pub stack: Seq<usize>,
    pub mode: InsertionMode,
}

/// The current insertion point: the top of the stack of open elements, or
/// the document root if the stack is empty.
pub open spec fn spec_current(m: ParserModel) -> usize {
    if m.stack.len() > 0 {
        m.stack.last()
    } else {
        0
    }
}

/// Well-formedness of the tree under construction: the root is a document
/// node, every stack entry is a valid index, and the arena links are sound.
pub open spec fn tree_wf(m: ParserModel) -> bool {
    &&& 1 <= m.nodes.len() <= usize::MAX
    &&& m.nodes[0].kind is Document
    &&& (forall|j: int| 0 <= j < m.stack.len() ==> (#[trigger] m.stack[j]) < m.nodes.len())
    &&& arena_wf(m.nodes)
}

/// The tree after inserting a character at the insertion point: a text node
/// already there absorbs the character in place; otherwise a new text node
/// is linked as the last child and pushed onto the stack.
pub open spec fn spec_insert_char(m: ParserModel, c: char) -> ParserModel {
    let cur = spec_current(m);
    if m.nodes[cur as int].kind is Text {
        ParserModel {
            nodes: m.nodes.update(
                cur as int,
                NodeModel {
                    kind: NodeKindModel::Text(spec_text_of(m.nodes[cur as int].kind).push(c)),
                    ..m.nodes[cur as int]
                },
            ),
            ..m
        }
    } else {
        let idx = m.nodes.len() as usize;
        let fresh = spec_fresh_node(NodeKindModel::Text(seq![c]));
        ParserModel {
            nodes: spec_append_child(m.nodes.push(fresh), cur, idx),
            stack: m.stack.push(idx),
            ..m
        }
    }
}

/// The tree after creating an element of kind `k`, linking it as the last
/// child of the insertion point and pushing it onto the stack.
pub open spec fn spec_append_element(m: ParserModel, k: HtmlElementKind) -> ParserModel {
    let cur = spec_current(m);
    let idx = m.nodes.len() as usize;
    let fresh = spec_fresh_node(NodeKindModel::Element(k));
    ParserModel {
        nodes: spec_append_child(m.nodes.push(fresh), cur, idx),
        stack: m.stack.push(idx),
        ..m
    }
}

/// The tree after popping the top of the stack of open elements.
pub open spec fn spec_pop(m: ParserModel) -> ParserModel {
    if m.stack.len() > 0 {
        ParserModel { stack: m.stack.drop_last(), ..m }
    } else {
        m
    }
}

/// The kinds recognized by a start or end tag inside the body.
pub open spec fn spec_body_kind(name: Seq<char>) -> Option<HtmlElementKind> {
    match spec_kind_of_tag(name) {
        Some(k) => if k is P || k is Div || k is Span || k is H1 || k is H2 {
            Some(k)
        } else {
            None
        },
        None => None,
    }
}

/// How many fallthrough steps a mode can still take without consuming a
/// token; the terminal modes never recurse.
pub open spec fn mode_rank(mode: InsertionMode) -> nat {
    match mode {
        InsertionMode::Initial => 6,
        InsertionMode::BeforeHtml => 5,
        InsertionMode::BeforeHead => 4,
        InsertionMode::InHead => 3,
        InsertionMode::AfterHead => 2,
        InsertionMode::InBody => 1,
        InsertionMode::Text => 0,
        InsertionMode::AfterBody => 0,
    }
}

/// The tree constructor's state machine over a whole token sequence: each
/// token plus the current mode determines the tree mutations and the mode
/// transition; an `Eof` token or the end of the sequence stops processing,
/// as do the terminal modes.
pub open spec fn spec_construct(m: ParserModel, toks: Seq<TokenModel>) -> ParserModel
    decreases toks.len(), mode_rank(m.mode),
{
    if toks.len() == 0 {
        m
    } else {
        let t = toks[0];
        match m.mode {
            InsertionMode::Initial => spec_construct(
                ParserModel { mode: InsertionMode::BeforeHtml, ..m },
                toks,
            ),
            InsertionMode::BeforeHtml => match t {
                TokenModel::Char(c) => if spec_is_ws(c) {
                    spec_construct(m, toks.drop_first())
                } else {
                    spec_construct(ParserModel { mode: InsertionMode::BeforeHead, ..m }, toks)
                },
                TokenModel::StartTag(name) => if name == "html"@ {
                    spec_construct(
                        ParserModel {
                            mode: InsertionMode::BeforeHead,
                            ..spec_append_element(m, HtmlElementKind::Html)
                        },
                        toks.drop_first(),
                    )
                } else {
                    spec_construct(ParserModel { mode: InsertionMode::BeforeHead, ..m }, toks)
                },
                TokenModel::EndTag(_) => spec_construct(m, toks.drop_first()),
                TokenModel::Eof => m,
            },
            InsertionMode::BeforeHead => spec_construct(
                ParserModel { mode: InsertionMode::InHead, ..m },
                toks,
            ),
            InsertionMode::InHead => spec_construct(
                ParserModel { mode: InsertionMode::AfterHead, ..m },
                toks,
            ),
            InsertionMode::AfterHead => match t {
                TokenModel::Char(c) => if spec_is_ws(c) {
                    spec_construct(m, toks.drop_first())
                } else {
                    spec_construct(ParserModel { mode: InsertionMode::InBody, ..m }, toks)
                },
                TokenModel::StartTag(name) => if name == "body"@ {
                    spec_construct(
                        ParserModel {
                            mode: InsertionMode::InBody,
                            ..spec_append_element(m, HtmlElementKind::Body)
                        },
                        toks.drop_first(),
                    )
                } else if name == "head"@ {
                    spec_construct(m, toks.drop_first())
                } else {
                    spec_construct(ParserModel { mode: InsertionMode::InBody, ..m }, toks)
                },
                TokenModel::EndTag(_) => spec_construct(m, toks.drop_first()),
                TokenModel::Eof => m,
            },
            InsertionMode::InBody => match t {
                TokenModel::Char(c) => spec_construct(spec_insert_char(m, c), toks.drop_first()),
                TokenModel::StartTag(name) => match spec_body_kind(name) {
                    Some(k) => spec_construct(spec_append_element(m, k), toks.drop_first()),
                    None => spec_construct(m, toks.drop_first()),
                },
                TokenModel::EndTag(name) => if name == "html"@ {
                    spec_construct(
                        ParserModel { mode: InsertionMode::AfterBody, ..m },
                        toks.drop_first(),
                    )
                } else {
                    match spec_body_kind(name) {
                        Some(k) => spec_construct(spec_pop(m), toks.drop_first()),
                        None => spec_construct(m, toks.drop_first()),
                    }
                },
                TokenModel::Eof => m,
            },
            InsertionMode::Text => m,
            InsertionMode::AfterBody => m,
        }
    }
}

/// The tree of a freshly constructed parser: a lone document node, an empty
/// stack, and the initial mode.
pub open spec fn spec_initial_tree() -> ParserModel {
    ParserModel {
        nodes: seq![spec_fresh_node(NodeKindModel::Document)],
        stack: Seq::empty(),
        mode: InsertionMode::Initial,
    }
}

/// Inserting a character preserves well-formedness of the tree.
pub proof fn lemma_insert_char_wf(m: ParserModel, c: char)
    requires
        tree_wf(m),
        !(m.nodes[spec_current(m) as int].kind is Text) ==> m.nodes.len() < usize::MAX,
    ensures
        tree_wf(spec_insert_char(m, c)),
        spec_insert_char(m, c).nodes.len() <= m.nodes.len() + 1,
{
    let cur = spec_current(m);
    assert(node_links_wf(m.nodes, cur as int));
    if m.nodes[cur as int].kind is Text {
        let r = spec_insert_char(m, c);
        assert forall|i: int| 0 <= i < r.nodes.len() implies #[trigger] node_links_wf(
            r.nodes,
            i,
        ) by {
            assert(node_links_wf(m.nodes, i));
        }
        assert(forall|i: int|
            0 <= i < r.nodes.len() && i != cur as int ==> (#[trigger] r.nodes[i]) == m.nodes[i]);
        assert(r.nodes[cur as int].first_child == m.nodes[cur as int].first_child);
        assert(r.nodes[cur as int].next_sibling == m.nodes[cur as int].next_sibling);
        assert(r.nodes[cur as int].last_child == m.nodes[cur as int].last_child);
        assert(r.nodes[cur as int].parent == m.nodes[cur as int].parent);
        assert(r.nodes[cur as int].previous_sibling == m.nodes[cur as int].previous_sibling);
        assert forall|i: int| 0 <= i < r.nodes.len() implies #[trigger] owner_links_wf(
            r.nodes,
            i,
        ) by {
            assert(owner_links_wf(m.nodes, i));
            assert(node_links_wf(m.nodes, i));
        }
    } else {
        lemma_append_fresh_wf(m, spec_fresh_node(NodeKindModel::Text(seq![c])));
    }
}

/// Appending an element preserves well-formedness of the tree.
pub proof fn lemma_append_element_wf(m: ParserModel, k: HtmlElementKind)
    requires
        tree_wf(m),
        m.nodes.len() < usize::MAX,
    ensures
        tree_wf(spec_append_element(m, k)),
{
    lemma_append_fresh_wf(m, spec_fresh_node(NodeKindModel::Element(k)));
}

/// Linking a freshly allocated, unlinked node as the last child of the
/// insertion point preserves well-formedness.
proof fn lemma_append_fresh_wf(m: ParserModel, fresh: NodeModel)
    requires
        tree_wf(m),
        m.nodes.len() < usize::MAX,
        fresh.parent is None,
        fresh.first_child is None,
        fresh.last_child is None,
        fresh.next_sibling is None,
        fresh.previous_sibling is None,
        !(fresh.kind is Document) || m.nodes[spec_current(m) as int].kind is Document,
    ensures
        ({
            let cur = spec_current(m);
            let idx = m.nodes.len() as usize;
            let r = ParserModel {
                nodes: spec_append_child(m.nodes.push(fresh), cur, idx),
                stack: m.stack.push(idx),
                ..m
            };
            tree_wf(r)
        }),
{
    let cur = spec_current(m);
    let idx = m.nodes.len() as usize;
    let pushed = m.nodes.push(fresh);
    let r = ParserModel {
        nodes: spec_append_child(pushed, cur, idx),
        stack: m.stack.push(idx),
        ..m
    };
    assert(node_links_wf(m.nodes, cur as int));
    assert(owner_links_wf(m.nodes, cur as int));
    assert(forall|i: int| 0 <= i < m.nodes.len() ==> #[trigger] node_links_wf(m.nodes, i));
    assert(r.nodes.len() == m.nodes.len() + 1);
    assert(r.nodes[0].kind == m.nodes[0].kind);
    assert forall|i: int| 0 <= i < r.nodes.len() implies #[trigger] node_links_wf(
        r.nodes,
        i,
    ) by {
        if i < m.nodes.len() {
            assert(node_links_wf(m.nodes, i));
        }
    }
    if m.nodes[cur as int].first_child is None {
        assert(r.nodes[cur as int].first_child == Some(idx));
        assert(r.nodes[cur as int].last_child == Some(idx));
        assert(r.nodes[cur as int].next_sibling == m.nodes[cur as int].next_sibling);
        assert(r.nodes[idx as int].first_child is None);
        assert(r.nodes[idx as int].next_sibling is None);
        assert(r.nodes[idx as int].last_child is None);
        assert(r.nodes[idx as int].parent == Some(cur));
        assert(r.nodes[idx as int].previous_sibling is None);
        assert(forall|i: int|
            0 <= i < m.nodes.len() && i != cur as int ==> (#[trigger] r.nodes[i]) == m.nodes[i]);
        assert forall|i: int| 0 <= i < r.nodes.len() implies #[trigger] owner_links_wf(
            r.nodes,
            i,
        ) by {
            if i < m.nodes.len() {
                assert(owner_links_wf(m.nodes, i));
                assert(node_links_wf(m.nodes, i));
            }
        }
    } else {
        let l = m.nodes[cur as int].last_child->0;
        assert(node_links_wf(m.nodes, l as int));
        assert(owner_links_wf(m.nodes, l as int));
        assert(l != cur && l < m.nodes.len());
        assert(r.nodes[l as int].next_sibling == Some(idx));
        assert(r.nodes[l as int].first_child == m.nodes[l as int].first_child);
        assert(r.nodes[l as int].last_child == m.nodes[l as int].last_child);
        assert(r.nodes[l as int].parent == m.nodes[l as int].parent);
        assert(r.nodes[l as int].previous_sibling == m.nodes[l as int].previous_sibling);
        assert(r.nodes[cur as int].first_child == m.nodes[cur as int].first_child);
        assert(r.nodes[cur as int].next_sibling == m.nodes[cur as int].next_sibling);
        assert(r.nodes[cur as int].last_child == Some(idx));
        assert(r.nodes[cur as int].parent == m.nodes[cur as int].parent);
        assert(r.nodes[cur as int].previous_sibling == m.nodes[cur as int].previous_sibling);
        assert(r.nodes[idx as int].first_child is None);
        assert(r.nodes[idx as int].next_sibling is None);
        assert(r.nodes[idx as int].last_child is None);
        assert(r.nodes[idx as int].parent == Some(cur));
        assert(r.nodes[idx as int].previous_sibling == Some(l));
        assert(forall|i: int|
            0 <= i < m.nodes.len() && i != cur as int && i != l as int ==> (#[trigger] r.nodes[i])
                == m.nodes[i]);
        assert forall|i: int| 0 <= i < r.nodes.len() implies #[trigger] owner_links_wf(
            r.nodes,
            i,
        ) by {
            if i < m.nodes.len() {
                assert(owner_links_wf(m.nodes, i));
                assert(node_links_wf(m.nodes, i));
                // the parent back-reference of l witnesses that only cur had
                // l as its last child
                if m.nodes[i].last_child == Some(l) && i != cur as int {
                    assert(m.nodes[l as int].parent == Some(i as usize));
                    assert(false);
                }
            }
        }
    }
    assert forall|j: int| 0 <= j < r.stack.len() implies (#[trigger] r.stack[j])
        < r.nodes.len() by {
        if j < m.stack.len() {
            assert(m.stack[j] < m.nodes.len());
        }
    }
}

/// The sequence of tokens still to be processed: the unconsumed current
/// token, then whatever the tokenizer will still emit.
pub open spec fn spec_stream(t: Option<TokenModel>, m: TokModel) -> Seq<TokenModel> {
    match t {
        None => Seq::empty(),
        Some(tok) => seq![tok] + spec_tokens(m),
    }
}

/// Elementary facts about a sequence with an explicit head.
proof fn lemma_cons_facts(t: TokenModel, s: Seq<TokenModel>)
    ensures
        (seq![t] + s).len() == s.len() + 1,
        (seq![t] + s)[0] == t,
        (seq![t] + s).drop_first() == s,
{
    assert((seq![t] + s).drop_first() =~= s);
}

/// One pull of the tokenizer splits its token sequence into the pulled token
/// and the remainder.
proof fn lemma_stream_step(m: TokModel)
    requires
        tok_wf(m),
    ensures
        spec_tokens(m) == spec_stream(spec_next(m).1, spec_next(m).0),
{
    let (m2, r) = spec_next(m);
    if m.pos > m.input.len() {
        assert(spec_tokens(m) =~= Seq::<TokenModel>::empty());
        assert(r is None);
    } else {
        crate::html_tokenizer::lemma_next_loop_dec(m);
        match r {
            None => {
                assert(spec_tokens(m) =~= Seq::<TokenModel>::empty());
            },
            Some(t) => {
                assert(spec_tokens(m) == seq![t] + spec_tokens(m2));
            },
        }
    }
}

/// The tree constructor. It owns the arena (the root is index 0), the
/// tokenizer it pulls from, the stack of open elements, and the mode.
pub struct HtmlPerser {
    arena: NodeArena,
    tokenizer: HtmlTokenizer,
    stack_of_open_elements: Vec<usize>,
    insertion_mode: InsertionMode,
}

impl HtmlPerser {
    /// The tree part of the parser's state.
    pub closed spec fn tree_model(&self) -> ParserModel {
        ParserModel {
            nodes: self.arena@,
            stack: self.stack_of_open_elements@,
            mode: self.insertion_mode,
        }
    }

    /// The tokenizer part of the parser's state.
    pub closed spec fn tok_model(&self) -> TokModel {
        self.tokenizer@
    }

    /// Well-formedness: the tree and the tokenizer both are.
    pub open spec fn wf(&self) -> bool {
        &&& tree_wf(self.tree_model())
        &&& tok_wf(self.tok_model())
    }

    pub fn new(tokenizer: HtmlTokenizer) -> (p: Self)
        requires
            tokenizer.wf(),
        ensures
            p.wf(),
            p.tree_model() == spec_initial_tree(),
            p.tok_model() == tokenizer@,
    {
        let mut arena = NodeArena::new();
        let _root = arena.new_node(Node::new(NodeKind::Document));
        let p = HtmlPerser {
            arena,
            tokenizer,
            stack_of_open_elements: Vec::new(),
            insertion_mode: InsertionMode::Initial,
        };
        proof {
            assert(p.tree_model().nodes =~= spec_initial_tree().nodes);
            assert(p.tree_model().stack =~= spec_initial_tree().stack);
            assert(p.tree_model() == spec_initial_tree());
            assert forall|i: int|
                0 <= i < p.tree_model().nodes.len() implies #[trigger] node_links_wf(
                p.tree_model().nodes,
                i,
            ) by {}
        }
        p
    }

    fn is_whitespace(&self, c: char) -> (r: bool)
        ensures
            r == spec_is_ws(c),
    {
        c == ' ' || c == '\n' || c == '\t'
    }

    /// A fresh text node holding the single character `c`.
    fn create_char(&self, c: char) -> (n: Node)
        ensures
            n@ == spec_fresh_node(NodeKindModel::Text(seq![c])),
    {
        let s = crate::text::char_to_string(c);
        Node::new(NodeKind::Text(s))
    }

    /// The index of the current insertion point.
    fn current_node(&self) -> (r: usize)
        requires
            tree_wf(self.tree_model()),
        ensures
            r == spec_current(self.tree_model()),
            r < self.tree_model().nodes.len(),
    {
        let n = self.stack_of_open_elements.len();
        if n > 0 {
            let r = self.stack_of_open_elements[n - 1];
            proof {
                assert(self.tree_model().stack[n - 1] < self.tree_model().nodes.len());
            }
            r
        } else {
            0
        }
    }

    /// Insert a character at the insertion point, coalescing it into a text
    /// node already there.
    pub fn insert_char(&mut self, c: char)
        requires
            old(self).wf(),
        ensures
            final(self).wf(),
            final(self).tree_model() == spec_insert_char(old(self).tree_model(), c),
            final(self).tok_model() == old(self).tok_model(),
    {
        let cur = self.current_node();
        if self.arena.node(cur).is_text() {
            self.arena.append_char_to_text(cur, c);
            proof {
                lemma_insert_char_wf(old(self).tree_model(), c);
            }
        } else {
            let node = self.create_char(c);
            let idx = self.arena.new_node(node);
            let _n = self.arena.len();
            proof {
                assert(old(self).tree_model().nodes.len() < usize::MAX);
                assert(node_links_wf(old(self).tree_model().nodes, cur as int));
                assert(self.arena@[cur as int] == old(self).tree_model().nodes[cur as int]);
                assert(node_links_wf(self.arena@, cur as int));
            }
            self.arena.append_child_node(cur, idx);
            self.stack_of_open_elements.push(idx);
            proof {
                lemma_insert_char_wf(old(self).tree_model(), c);
            }
        }
    }

    /// Create an element node for `e`, link it at the insertion point, and
    /// push it onto the stack of open elements.
    pub fn append_element(&mut self, e: Element)
        requires
            old(self).wf(),
        ensures
            final(self).wf(),
            final(self).tree_model() == spec_append_element(old(self).tree_model(), e@),
            final(self).tok_model() == old(self).tok_model(),
    {
        let node = Node::new(NodeKind::Element(e));
        let cur = self.current_node();
        let idx = self.arena.new_node(node);
        let _n = self.arena.len();
        proof {
            assert(old(self).tree_model().nodes.len() < usize::MAX);
            assert(node_links_wf(old(self).tree_model().nodes, cur as int));
            assert(self.arena@[cur as int] == old(self).tree_model().nodes[cur as int]);
            assert(node_links_wf(self.arena@, cur as int));
        }
        self.arena.append_child_node(cur, idx);
        self.stack_of_open_elements.push(idx);
        proof {
            lemma_append_element_wf(old(self).tree_model(), e@);
        }
    }

    /// How many elements are open: the height of the stack.
    pub fn stack_depth(&self) -> (n: usize)
        ensures
            n == self.tree_model().stack.len(),
    {
        self.stack_of_open_elements.len()
    }

    /// How many nodes the tree holds.
    pub fn node_count(&self) -> (n: usize)
        ensures
            n == self.tree_model().nodes.len(),
    {
        self.arena.len()
    }

    /// The node at arena index `i`; index 0 is the document root.
    pub fn node(&self, i: usize) -> (n: &Node)
        requires
            i < self.tree_model().nodes.len(),
        ensures
            n@ == self.tree_model().nodes[i as int],
    {
        self.arena.node(i)
    }

    /// Consume the token sequence to completion and return the index of the
    /// document root, which is always 0. The whole effect on the tree is
    /// exactly `spec_construct` applied to the tokens the tokenizer had left;
    /// whatever was built before an `Eof` is kept.
    pub fn construct_tree(&mut self) -> (root: usize)
        requires
            old(self).wf(),
        ensures
            final(self).wf(),
            root == 0,
            final(self).tree_model() == spec_construct(
                old(self).tree_model(),
                spec_tokens(old(self).tok_model()),
            ),
    {
        let ghost entry_tree = self.tree_model();
        let ghost entry_toks = spec_tokens(self.tok_model());
        proof {
            lemma_stream_step(self.tok_model());
        }
        let mut token = self.tokenizer.next();
        loop
            invariant
                self.wf(),
                entry_tree == old(self).tree_model(),
                entry_toks == spec_tokens(old(self).tok_model()),
                spec_construct(entry_tree, entry_toks) == spec_construct(
                    self.tree_model(),
                    spec_stream(spec_opt_token(token), self.tok_model()),
                ),
            decreases
                spec_stream(spec_opt_token(token), self.tok_model()).len(),
                mode_rank(self.insertion_mode),
        {
            if token.is_none() {
                return 0;
            }
            let ghost prev_tree = self.tree_model();
            let ghost prev_tok = self.tok_model();
            let ghost prev_token = spec_opt_token(token);
            let ghost prev_stream = spec_stream(prev_token, prev_tok);
            proof {
                lemma_cons_facts(prev_token->0, spec_tokens(prev_tok));
            }
            match self.insertion_mode {
                InsertionMode::Initial => {
                    self.insertion_mode = InsertionMode::BeforeHtml;
                },
                InsertionMode::BeforeHtml => {
                    match &token {
                        Some(HtmlToken::Char(c)) => {
                            if self.is_whitespace(*c) {
                                proof {
                                    lemma_stream_step(prev_tok);
                                }
                                token = self.tokenizer.next();
                            } else {
                                self.insertion_mode = InsertionMode::BeforeHead;
                            }
                        },
                        Some(HtmlToken::StartTag(name)) => {
                            if str_eq(name.as_str(), "html") {
                                self.append_element(Element::new(HtmlElementKind::Html));
                                self.insertion_mode = InsertionMode::BeforeHead;
                                proof {
                                    lemma_stream_step(prev_tok);
                                }
                                token = self.tokenizer.next();
                            } else {
                                self.insertion_mode = InsertionMode::BeforeHead;
                            }
                        },
                        Some(HtmlToken::EndTag(_)) => {
                            proof {
                                lemma_stream_step(prev_tok);
                            }
                            token = self.tokenizer.next();
                        },
                        Some(HtmlToken::Eof) => {
                            return 0;
                        },
                        None => {
                            proof {
                                assert(false);
                            }
                            return 0;
                        },
                    }
                },
                InsertionMode::BeforeHead => {
                    self.insertion_mode = InsertionMode::InHead;
                },
                InsertionMode::InHead => {
                    self.insertion_mode = InsertionMode::AfterHead;
                },
                InsertionMode::AfterHead => {
                    match &token {
                        Some(HtmlToken::Char(c)) => {
                            if self.is_whitespace(*c) {
                                proof {
                                    lemma_stream_step(prev_tok);
                                }
                                token = self.tokenizer.next();
                            } else {
                                self.insertion_mode = InsertionMode::InBody;
                            }
                        },
                        Some(HtmlToken::StartTag(name)) => {
                            if str_eq(name.as_str(), "body") {
                                self.append_element(Element::new(HtmlElementKind::Body));
                                self.insertion_mode = InsertionMode::InBody;
                                proof {
                                    lemma_stream_step(prev_tok);
                                }
                                token = self.tokenizer.next();
                            } else if str_eq(name.as_str(), "head") {
                                proof {
                                    lemma_stream_step(prev_tok);
                                }
                                token = self.tokenizer.next();
                            } else {
                                self.insertion_mode = InsertionMode::InBody;
                            }
                        },
                        Some(HtmlToken::EndTag(_)) => {
                            proof {
                                lemma_stream_step(prev_tok);
                            }
                            token = self.tokenizer.next();
                        },
                        Some(HtmlToken::Eof) => {
                            return 0;
                        },
                        None => {
                            proof {
                                assert(false);
                            }
                            return 0;
                        },
                    }
                },
                InsertionMode::InBody => {
                    match &token {
                        Some(HtmlToken::Char(c)) => {
                            self.insert_char(*c);
                            proof {
                                lemma_stream_step(prev_tok);
                            }
                            token = self.tokenizer.next();
                        },
                        Some(HtmlToken::StartTag(name)) => {
                            let e = Element::from_str(name.as_str());
                            let mut recognized: Option<Element> = None;
                            match e {
                                Some(el) => {
                                    match *el.kind() {
                                        HtmlElementKind::P
                                        | HtmlElementKind::Div
                                        | HtmlElementKind::Span
                                        | HtmlElementKind::H1
                                        | HtmlElementKind::H2 => {
                                            recognized = Some(el);
                                        },
                                        _ => {},
                                    }
                                },
                                None => {},
                            }
                            match recognized {
                                Some(el) => {
                                    self.append_element(el);
                                },
                                None => {},
                            }
                            proof {
                                lemma_stream_step(prev_tok);
                            }
                            token = self.tokenizer.next();
                        },
                        Some(HtmlToken::EndTag(name)) => {
                            if str_eq(name.as_str(), "html") {
                                self.insertion_mode = InsertionMode::AfterBody;
                                proof {
                                    lemma_stream_step(prev_tok);
                                }
                                token = self.tokenizer.next();
                            } else {
                                let e = Element::from_str(name.as_str());
                                let mut recognized: bool = false;
                                match e {
                                    Some(el) => {
                                        match *el.kind() {
                                            HtmlElementKind::P
                                            | HtmlElementKind::Div
                                            | HtmlElementKind::Span
                                            | HtmlElementKind::H1
                                            | HtmlElementKind::H2 => {
                                                recognized = true;
                                            },
                                            _ => {},
                                        }
                                    },
                                    None => {},
                                }
                                if recognized {
                                    let _popped = self.stack_of_open_elements.pop();
                                }
                                proof {
                                    lemma_stream_step(prev_tok);
                                }
                                token = self.tokenizer.next();
                            }
                        },
                        Some(HtmlToken::Eof) => {
                            return 0;
                        },
                        None => {
                            proof {
                                assert(false);
                            }
                            return 0;
                        },
                    }
                },
                InsertionMode::Text => {
                    return 0;
                },
                InsertionMode::AfterBody => {
                    return 0;
                },
            }
        }
    }
}

/// Whether a token is a whitespace character token.
pub open spec fn is_ws_token(t: TokenModel) -> bool {
    match t {
        TokenModel::Char(c) => spec_is_ws(c),
        _ => false,
    }
}

/// Coalescing: inserting two characters when the insertion point holds no
/// text creates exactly one new text node, holding both characters in
/// order; the second character is absorbed in place, never as a sibling.
pub proof fn lemma_coalescing(m: ParserModel, c1: char, c2: char)
    requires
        tree_wf(m),
        !(m.nodes[spec_current(m) as int].kind is Text),
        m.nodes.len() < usize::MAX,
    ensures
        ({
            let m2 = spec_insert_char(spec_insert_char(m, c1), c2);
            &&& m2.nodes.len() == m.nodes.len() + 1
            &&& m2.nodes[m.nodes.len() as int].kind == NodeKindModel::Text(seq![c1, c2])
            &&& m2.stack == m.stack.push(m.nodes.len() as usize)
        }),
{
    let idx = m.nodes.len() as usize;
    let m1 = spec_insert_char(m, c1);
    lemma_insert_char_wf(m, c1);
    assert(idx as int == m.nodes.len());
    assert(node_links_wf(m.nodes, spec_current(m) as int));
    assert(m.nodes.push(spec_fresh_node(NodeKindModel::Text(seq![c1])))[idx as int]
        == spec_fresh_node(NodeKindModel::Text(seq![c1])));
    assert(m1.stack == m.stack.push(idx));
    assert(m1.stack.last() == idx);
    assert(spec_current(m1) == idx);
    assert(m1.nodes[idx as int].kind == NodeKindModel::Text(seq![c1]));
    let m2 = spec_insert_char(m1, c2);
    assert(seq![c1].push(c2) =~= seq![c1, c2]);
    assert(m2.nodes[idx as int].kind == NodeKindModel::Text(seq![c1, c2]));
    assert(m2.stack == m1.stack);
}

/// Stack discipline: a recognized start tag followed at once by the matching
/// end tag leaves the stack of open elements exactly as high as it was.
pub proof fn lemma_stack_discipline(m: ParserModel, name: Seq<char>, rest: Seq<TokenModel>)
    requires
        m.mode is InBody,
        spec_body_kind(name) is Some,
    ensures
        spec_construct(m, seq![TokenModel::StartTag(name), TokenModel::EndTag(name)] + rest)
            == spec_construct(spec_pop(spec_append_element(m, spec_body_kind(name)->0)), rest),
        spec_pop(spec_append_element(m, spec_body_kind(name)->0)).stack == m.stack,
{
    let k = spec_body_kind(name)->0;
    let toks = seq![TokenModel::StartTag(name), TokenModel::EndTag(name)] + rest;
    let m1 = spec_append_element(m, k);
    assert(name != "html"@);
    assert(toks[0] == TokenModel::StartTag(name));
    let toks1 = seq![TokenModel::EndTag(name)] + rest;
    assert(toks.drop_first() =~= toks1);
    assert(spec_construct(m, toks) == spec_construct(m1, toks1));
    assert(toks1[0] == TokenModel::EndTag(name));
    assert(toks1.drop_first() =~= rest);
    assert(spec_construct(m1, toks1) == spec_construct(spec_pop(m1), rest));
    assert(m1.stack.drop_last() =~= m.stack);
}

/// An unsupported start tag in the body is skipped: no node is created and
/// the whole state, the current insertion point included, is left unchanged.
pub proof fn lemma_unsupported_tag(m: ParserModel, name: Seq<char>, rest: Seq<TokenModel>)
    requires
        m.mode is InBody,
        spec_body_kind(name) is None,
    ensures
        spec_construct(m, seq![TokenModel::StartTag(name)] + rest) == spec_construct(m, rest),
{
    let toks = seq![TokenModel::StartTag(name)] + rest;
    assert(toks[0] == TokenModel::StartTag(name));
    assert(toks.drop_first() =~= rest);
}

/// Whitespace tokens arriving before the html element is created are
/// discarded: a whitespace prefix changes nothing about the resulting tree.
pub proof fn lemma_ws_prefix_ignored(m: ParserModel, ws: Seq<TokenModel>, rest: Seq<TokenModel>)
    requires
        m.mode is Initial || m.mode is BeforeHtml,
        forall|i: int| 0 <= i < ws.len() ==> is_ws_token(#[trigger] ws[i]),
    ensures
        spec_construct(m, ws + rest).nodes == spec_construct(m, rest).nodes,
        spec_construct(m, ws + rest).stack == spec_construct(m, rest).stack,
    decreases ws.len(), mode_rank(m.mode),
{
    if ws.len() == 0 {
        assert(ws + rest =~= rest);
    } else {
        let toks = ws + rest;
        assert(toks[0] == ws[0]);
        assert(is_ws_token(ws[0]));
        if m.mode is Initial {
            let mbh = ParserModel { mode: InsertionMode::BeforeHtml, ..m };
            assert(spec_construct(m, toks) == spec_construct(mbh, toks));
            lemma_ws_prefix_ignored(mbh, ws, rest);
            if rest.len() == 0 {
                assert(spec_construct(mbh, rest) == mbh);
                assert(spec_construct(m, rest) == m);
            } else {
                assert(spec_construct(m, rest) == spec_construct(mbh, rest));
            }
        } else {
            assert(toks.drop_first() =~= ws.drop_first() + rest);
            assert(spec_construct(m, toks) == spec_construct(m, ws.drop_first() + rest));
            assert forall|i: int| 0 <= i < ws.drop_first().len() implies is_ws_token(
                #[trigger] ws.drop_first()[i],
            ) by {
                assert(ws.drop_first()[i] == ws[i + 1]);
                assert(is_ws_token(ws[i + 1]));
            }
            lemma_ws_prefix_ignored(m, ws.drop_first(), rest);
        }
    }
}

/// In the body, with the insertion point resting on a text node, a run of
/// character tokens followed by Eof appends exactly those characters to that
/// node's text and changes nothing else.
proof fn lemma_char_run(m: ParserModel, s: Seq<char>)
    requires
        tree_wf(m),
        m.mode is InBody,
        m.stack.len() > 0,
        m.nodes[spec_current(m) as int].kind is Text,
    ensures
        spec_construct(m, chars_tokens(s).push(TokenModel::Eof)) == (ParserModel {
            nodes: m.nodes.update(
                spec_current(m) as int,
                NodeModel {
                    kind: NodeKindModel::Text(
                        spec_text_of(m.nodes[spec_current(m) as int].kind) + s,
                    ),
                    ..m.nodes[spec_current(m) as int]
                },
            ),
            ..m
        }),
    decreases s.len(),
{
    let cur = spec_current(m) as int;
    let toks = chars_tokens(s).push(TokenModel::Eof);
    if s.len() == 0 {
        assert(toks =~= seq![TokenModel::Eof]);
        assert(toks[0] == TokenModel::Eof);
        assert(spec_construct(m, toks) == m);
        assert(spec_text_of(m.nodes[cur].kind) + s =~= spec_text_of(m.nodes[cur].kind));
        assert(NodeKindModel::Text(spec_text_of(m.nodes[cur].kind)) == m.nodes[cur].kind);
        assert((NodeModel {
            kind: NodeKindModel::Text(spec_text_of(m.nodes[cur].kind) + s),
            ..m.nodes[cur]
        }) == m.nodes[cur]);
        assert(m.nodes.update(cur, m.nodes[cur]) =~= m.nodes);
    } else {
        let c = s[0];
        crate::html_tokenizer::lemma_chars_tokens_step(s);
        assert(toks[0] == TokenModel::Char(c));
        let m1 = spec_insert_char(m, c);
        lemma_insert_char_wf(m, c);
        assert(toks.drop_first() =~= chars_tokens(s.drop_first()).push(TokenModel::Eof));
        assert(spec_construct(m, toks) == spec_construct(m1, toks.drop_first()));
        assert(m1.stack == m.stack);
        assert(spec_current(m1) == spec_current(m));
        assert(m1.nodes[cur].kind == NodeKindModel::Text(
            spec_text_of(m.nodes[cur].kind).push(c),
        ));
        lemma_char_run(m1, s.drop_first());
        assert(spec_text_of(m.nodes[cur].kind).push(c) + s.drop_first() =~= spec_text_of(
            m.nodes[cur].kind,
        ) + s);
        assert(m1.nodes.update(
            cur,
            NodeModel {
                kind: NodeKindModel::Text(spec_text_of(m1.nodes[cur].kind) + s.drop_first()),
                ..m1.nodes[cur]
            },
        ) =~= m.nodes.update(
            cur,
            NodeModel {
                kind: NodeKindModel::Text(spec_text_of(m.nodes[cur].kind) + s),
                ..m.nodes[cur]
            },
        ));
    }
}

/// For any nonempty input holding neither '<' nor the NUL character, whose
/// first character is not whitespace, the parse yields a document whose sole
/// child is a single text node whose content equals the input.
pub proof fn lemma_text_only_parse(input: Seq<char>)
    requires
        1 <= input.len() < usize::MAX,
        forall|i: int|
            0 <= i < input.len() ==> (#[trigger] input[i]) != '<' && input[i] != '\0',
        !spec_is_ws(input[0]),
    ensures
        ({
            let r = spec_construct(spec_initial_tree(), spec_tokens(spec_fresh_tokenizer(input)));
            &&& r.nodes.len() == 2
            &&& r.nodes[0].kind is Document
            &&& r.nodes[0].first_child == Some(1usize)
            &&& r.nodes[0].last_child == Some(1usize)
            &&& r.nodes[1].kind == NodeKindModel::Text(input)
            &&& r.nodes[1].parent == Some(0usize)
            &&& r.nodes[1].next_sibling == None::<usize>
            &&& r.nodes[1].previous_sibling == None::<usize>
        }),
{
    let tm = spec_fresh_tokenizer(input);
    crate::html_tokenizer::lemma_tokens_text_only(tm);
    assert(input.skip(0) =~= input);
    let toks = chars_tokens(input).push(TokenModel::Eof);
    assert(spec_tokens(tm) == toks);
    let m0 = spec_initial_tree();
    assert(tree_wf(m0)) by {
        assert(m0.nodes.len() == 1);
        assert forall|i: int| 0 <= i < m0.nodes.len() implies #[trigger] node_links_wf(
            m0.nodes,
            i,
        ) by {}
    }
    let c0 = input[0];
    assert(chars_tokens(input) == seq![TokenModel::Char(c0)] + chars_tokens(input.drop_first()));
    assert(toks[0] == TokenModel::Char(c0));
    assert(toks.len() > 0);
    let m_bh = ParserModel { mode: InsertionMode::BeforeHtml, ..m0 };
    let m_bhd = ParserModel { mode: InsertionMode::BeforeHead, ..m0 };
    let m_ih = ParserModel { mode: InsertionMode::InHead, ..m0 };
    let m_ah = ParserModel { mode: InsertionMode::AfterHead, ..m0 };
    let m_ib = ParserModel { mode: InsertionMode::InBody, ..m0 };
    assert(spec_construct(m0, toks) == spec_construct(m_bh, toks));
    assert(spec_construct(m_bh, toks) == spec_construct(m_bhd, toks));
    assert(spec_construct(m_bhd, toks) == spec_construct(m_ih, toks));
    assert(spec_construct(m_ih, toks) == spec_construct(m_ah, toks));
    assert(spec_construct(m_ah, toks) == spec_construct(m_ib, toks));
    let m1 = spec_insert_char(m_ib, c0);
    assert(tree_wf(m_ib));
    lemma_insert_char_wf(m_ib, c0);
    assert(toks.drop_first() =~= chars_tokens(input.drop_first()).push(TokenModel::Eof));
    assert(spec_construct(m_ib, toks) == spec_construct(m1, toks.drop_first()));
    assert(m_ib.nodes.push(spec_fresh_node(NodeKindModel::Text(seq![c0])))[1]
        == spec_fresh_node(NodeKindModel::Text(seq![c0])));
    assert(m1.nodes.len() == 2);
    assert(m1.stack =~= seq![1usize]);
    assert(spec_current(m1) == 1usize);
    assert(m1.nodes[1].kind == NodeKindModel::Text(seq![c0]));
    assert(m1.nodes[1].parent == Some(0usize));
    assert(m1.nodes[1].next_sibling == None::<usize>);
    assert(m1.nodes[1].previous_sibling == None::<usize>);
    assert(m1.nodes[0].kind is Document);
    assert(m1.nodes[0].first_child == Some(1usize));
    assert(m1.nodes[0].last_child == Some(1usize));
    lemma_char_run(m1, input.drop_first());
    assert(seq![c0] + input.drop_first() =~= input);
    assert(spec_text_of(m1.nodes[1].kind) + input.drop_first() =~= input);
    let r = spec_construct(spec_initial_tree(), spec_tokens(spec_fresh_tokenizer(input)));
    assert(r == spec_construct(m1, toks.drop_first()));
    assert(r.nodes =~= m1.nodes.update(
        1,
        NodeModel { kind: NodeKindModel::Text(input), ..m1.nodes[1] },
    ));
    assert(r.nodes.len() == 2);
    assert(r.nodes[1].kind == NodeKindModel::Text(input));
}

/// Leading whitespace in the raw input does not change the resulting tree:
/// its characters become whitespace tokens, and those are discarded before
/// the html element is created.
pub proof fn lemma_ws_input_prefix(w: Seq<char>, s: Seq<char>)
    requires
        forall|i: int| 0 <= i < w.len() ==> spec_is_ws(#[trigger] w[i]),
        w.len() + s.len() < usize::MAX,
    ensures
        spec_construct(spec_initial_tree(), spec_tokens(spec_fresh_tokenizer(w + s))).nodes
            == spec_construct(spec_initial_tree(), spec_tokens(spec_fresh_tokenizer(s))).nodes,
        spec_construct(spec_initial_tree(), spec_tokens(spec_fresh_tokenizer(w + s))).stack
            == spec_construct(spec_initial_tree(), spec_tokens(spec_fresh_tokenizer(s))).stack,
{
    let big = spec_fresh_tokenizer(w + s);
    let small = spec_fresh_tokenizer(s);
    assert((w + s).len() == w.len() + s.len());
    assert forall|i: int| 0 <= i < w.len() implies (#[trigger] (w + s)[i]) != '<' && (w + s)[i]
        != '\0' by {
        assert((w + s)[i] == w[i]);
        assert(spec_is_ws(w[i]));
    }
    crate::html_tokenizer::lemma_tokens_char_prefix(big, w.len() as int);
    let mid = TokModel { pos: w.len(), ..big };
    assert((w + s).subrange(0, w.len() as int) =~= w);
    assert(crate::html_tokenizer::shifted(mid, small, w));
    crate::html_tokenizer::lemma_tokens_shift(mid, small, w);
    assert(spec_tokens(big) == chars_tokens(w) + spec_tokens(small));
    assert forall|i: int| 0 <= i < chars_tokens(w).len() implies is_ws_token(
        #[trigger] chars_tokens(w)[i],
    ) by {
        assert(chars_tokens(w)[i] == crate::html_tokenizer::char_token(w[i]));
        assert(spec_is_ws(w[i]));
    }
    lemma_ws_prefix_ignored(spec_initial_tree(), chars_tokens(w), spec_tokens(small));
}


/// Append order is preserved through the `last_child` back-reference: when
/// an element is closed and a second one is appended under the same parent,
/// the new node is chained after the previous one, the parent's first child
/// is untouched, and its last child moves to the new node.
pub proof fn lemma_sibling_order(m: ParserModel, k1: HtmlElementKind, k2: HtmlElementKind)
    requires
        tree_wf(m),
        m.nodes.len() + 1 < usize::MAX,
    ensures
        ({
            let p = spec_current(m) as int;
            let idx1 = m.nodes.len() as usize;
            let idx2 = (m.nodes.len() + 1) as usize;
            let m2 = spec_append_element(spec_pop(spec_append_element(m, k1)), k2);
            &&& m2.nodes[idx1 as int].next_sibling == Some(idx2)
            &&& m2.nodes[idx2 as int].previous_sibling == Some(idx1)
            &&& m2.nodes[idx1 as int].parent == Some(spec_current(m))
            &&& m2.nodes[idx2 as int].parent == Some(spec_current(m))
            &&& m2.nodes[p].last_child == Some(idx2)
            &&& (m.nodes[p].first_child is Some ==> m2.nodes[p].first_child == m.nodes[
                p
            ].first_child)
            &&& (m.nodes[p].first_child is None ==> m2.nodes[p].first_child == Some(idx1))
        }),
{
    let p = spec_current(m) as int;
    let idx1 = m.nodes.len() as usize;
    let idx2 = (m.nodes.len() + 1) as usize;
    let m1 = spec_append_element(m, k1);
    lemma_append_element_wf(m, k1);
    assert(node_links_wf(m.nodes, p));
    assert(m1.nodes[p].last_child == Some(idx1));
    let m1p = spec_pop(m1);
    assert(m1p.stack =~= m.stack);
    assert(spec_current(m1p) == spec_current(m));
    assert(m1p.nodes == m1.nodes);
    let m2 = spec_append_element(m1p, k2);
    assert(m1.nodes.push(spec_fresh_node(NodeKindModel::Element(k2)))[idx2 as int]
        == spec_fresh_node(NodeKindModel::Element(k2)));
    assert(m2.nodes[idx1 as int].next_sibling == Some(idx2));
    assert(m2.nodes[idx2 as int].previous_sibling == Some(idx1));
    assert(m2.nodes[p].last_child == Some(idx2));
}

} // verus!
