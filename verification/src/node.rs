//! The n-ary document tree, stored as an arena of nodes addressed by stable
//! integer indices. Only the `first_child` and `next_sibling` links carry
//! ownership semantics; `parent`, `last_child` and `previous_sibling` are
//! back-references for traversal, so the owning chain is acyclic by
//! construction.

use vstd::prelude::*;
use crate::element::Element;
use crate::text::push_char;

verus! {

/// What a node represents: the document root, an element, or literal text.
#[derive(Debug, PartialEq)]
pub enum NodeKind {
    Document,
    Element(Element),
    Text(String),
}

/// The mathematical value of a `NodeKind`: text is a sequence of characters.
pub ghost enum NodeKindModel {
    Document,
    Element(crate::element::HtmlElementKind),
    Text(Seq<char>),
}

/// The text held by a kind; empty unless it is a text node.
pub open spec fn spec_text_of(k: NodeKindModel) -> Seq<char> {
    match k {
        NodeKindModel::Text(s) => s,
        _ => Seq::empty(),
    }
}

impl View for NodeKind {
    type V = NodeKindModel;

    open spec fn view(&self) -> NodeKindModel {
        match self {
            NodeKind::Document => NodeKindModel::Document,
            NodeKind::Element(e) => NodeKindModel::Element(e@),
            NodeKind::Text(s) => NodeKindModel::Text(s@),
        }
    }
}

impl Clone for NodeKind {
    fn clone(&self) -> (r: Self)
        ensures
            r == *self,
    {
        match self {
            NodeKind::Document => NodeKind::Document,
            NodeKind::Element(e) => NodeKind::Element(*e),
            NodeKind::Text(s) => NodeKind::Text(s.clone()),
        }
    }
}

/// One node of the tree. The link fields hold arena indices.
pub struct Node {
    kind: NodeKind,
    parent: Option<usize>,
    first_child: Option<usize>,
    last_child: Option<usize>,
    next_sibling: Option<usize>,
    previous_sibling: Option<usize>,
}

/// The mathematical value of a `Node`.
pub ghost struct NodeModel {
    pub kind: NodeKindModel,
    pub parent: Option<usize>,
    pub first_child: Option<usize>,
    pub last_child: Option<usize>,
    pub next_sibling: Option<usize>,
    pub previous_sibling: Option<usize>,
}

impl View for Node {
    type V = NodeModel;

    closed spec fn view(&self) -> NodeModel {
        NodeModel {
            kind: self.kind@,
            parent: self.parent,
            first_child: self.first_child,
            last_child: self.last_child,
            next_sibling: self.next_sibling,
            previous_sibling: self.previous_sibling,
        }
    }
}

/// A fresh, unlinked node of the given kind.
pub open spec fn spec_fresh_node(kind: NodeKindModel) -> NodeModel {
    NodeModel {
        kind: kind,
        parent: None,
        first_child: None,
        last_child: None,
        next_sibling: None,
        previous_sibling: None,
    }
}

impl Node {
    pub fn new(kind: NodeKind) -> (n: Self)
        ensures
            n@ == spec_fresh_node(kind@),
    {
        Self {
            kind,
            parent: None,
            first_child: None,
            last_child: None,
            next_sibling: None,
            previous_sibling: None,
        }
    }

    pub fn kind(&self) -> (k: NodeKind)
        ensures
            k@ == self@.kind,
    {
        self.kind.clone()
    }

    pub fn is_text(&self) -> (r: bool)
        ensures
            r == (self@.kind is Text),
    {
        matches!(self.kind, NodeKind::Text(_))
    }

    pub fn parent(&self) -> (r: Option<usize>)
        ensures
            r == self@.parent,
    {
        self.parent
    }

    pub fn first_child(&self) -> (r: Option<usize>)
        ensures
            r == self@.first_child,
    {
        self.first_child
    }

    pub fn last_child(&self) -> (r: Option<usize>)
        ensures
            r == self@.last_child,
    {
        self.last_child
    }

    pub fn next_sibling(&self) -> (r: Option<usize>)
        ensures
            r == self@.next_sibling,
    {
        self.next_sibling
    }

    pub fn previous_sibling(&self) -> (r: Option<usize>)
        ensures
            r == self@.previous_sibling,
    {
        self.previous_sibling
    }
}

/// The per-node part of the arena's well-formedness: link indices are in
/// bounds, a node is never its own last child, and `first_child` and
/// `last_child` are present together.
pub open spec fn node_links_wf(nodes: Seq<NodeModel>, i: int) -> bool {
    &&& (nodes[i].parent matches Some(p) ==> p < nodes.len())
    &&& (nodes[i].first_child matches Some(f) ==> f < nodes.len())
    &&& (nodes[i].last_child matches Some(l) ==> l < nodes.len() && l != i)
    &&& (nodes[i].next_sibling matches Some(s) ==> s < nodes.len())
    &&& (nodes[i].previous_sibling matches Some(s) ==> s < nodes.len())
    &&& (nodes[i].first_child is Some <==> nodes[i].last_child is Some)
}

/// Back-references mirror the owning links, and the owning links
/// (`first_child` and `next_sibling`) point only at strictly younger nodes,
/// so the owning chain is acyclic by construction.
pub open spec fn owner_links_wf(nodes: Seq<NodeModel>, i: int) -> bool {
    &&& (nodes[i].first_child matches Some(f) ==> f > i && nodes[f as int].previous_sibling
        is None && nodes[f as int].parent == Some(i as usize))
    &&& (nodes[i].next_sibling matches Some(s) ==> s > i && nodes[s as int].previous_sibling
        == Some(i as usize) && nodes[s as int].parent == nodes[i].parent)
    &&& (nodes[i].last_child matches Some(l) ==> nodes[l as int].next_sibling is None
        && nodes[l as int].parent == Some(i as usize))
}

/// Well-formedness of the whole arena.
pub open spec fn arena_wf(nodes: Seq<NodeModel>) -> bool {
    &&& (forall|i: int| 0 <= i < nodes.len() ==> #[trigger] node_links_wf(nodes, i))
    &&& (forall|i: int| 0 <= i < nodes.len() ==> #[trigger] owner_links_wf(nodes, i))
}

/// Every node has exactly one owner. In a well-formed arena the root is
/// owned by nobody, and no two owning links (`first_child` or
/// `next_sibling`), nor two `last_child` back-references, name the same
/// node: each pointee's own back-references witness its unique owner.
pub proof fn lemma_one_owner(nodes: Seq<NodeModel>)
    requires
        arena_wf(nodes),
        nodes.len() <= usize::MAX,
    ensures
        forall|i: int|
            0 <= i < nodes.len() ==> (#[trigger] nodes[i].first_child) != Some(0usize)
                && nodes[i].next_sibling != Some(0usize),
        forall|i: int, j: int|
            0 <= i < nodes.len() && 0 <= j < nodes.len() && (#[trigger] nodes[i].first_child)
                == (#[trigger] nodes[j].first_child) && nodes[i].first_child is Some ==> i == j,
        forall|i: int, j: int|
            0 <= i < nodes.len() && 0 <= j < nodes.len() && (#[trigger] nodes[i].next_sibling)
                == (#[trigger] nodes[j].next_sibling) && nodes[i].next_sibling is Some ==> i
                == j,
        forall|i: int, j: int|
            0 <= i < nodes.len() && 0 <= j < nodes.len() && (#[trigger] nodes[i].last_child)
                == (#[trigger] nodes[j].last_child) && nodes[i].last_child is Some ==> i == j,
        forall|i: int, j: int|
            0 <= i < nodes.len() && 0 <= j < nodes.len() && nodes[i].first_child is Some ==> (
            #[trigger] nodes[i].first_child) != (#[trigger] nodes[j].next_sibling),
{
    assert forall|i: int, j: int|
        0 <= i < nodes.len() && 0 <= j < nodes.len() && (#[trigger] nodes[i].first_child) == (
        #[trigger] nodes[j].first_child) && nodes[i].first_child is Some implies i == j by {
        assert(owner_links_wf(nodes, i));
        assert(owner_links_wf(nodes, j));
    }
    assert forall|i: int, j: int|
        0 <= i < nodes.len() && 0 <= j < nodes.len() && (#[trigger] nodes[i].next_sibling) == (
        #[trigger] nodes[j].next_sibling) && nodes[i].next_sibling is Some implies i == j by {
        assert(owner_links_wf(nodes, i));
        assert(owner_links_wf(nodes, j));
    }
    assert forall|i: int, j: int|
        0 <= i < nodes.len() && 0 <= j < nodes.len() && (#[trigger] nodes[i].last_child) == (
        #[trigger] nodes[j].last_child) && nodes[i].last_child is Some implies i == j by {
        assert(owner_links_wf(nodes, i));
        assert(owner_links_wf(nodes, j));
    }
    assert forall|i: int, j: int|
        0 <= i < nodes.len() && 0 <= j < nodes.len() && nodes[i].first_child is Some implies (
    #[trigger] nodes[i].first_child) != (#[trigger] nodes[j].next_sibling) by {
        assert(owner_links_wf(nodes, i));
        assert(owner_links_wf(nodes, j));
    }
    assert forall|i: int|
        0 <= i < nodes.len() implies (#[trigger] nodes[i].first_child) != Some(0usize)
            && nodes[i].next_sibling != Some(0usize) by {
        assert(owner_links_wf(nodes, i));
    }
}

/// The arena after linking `c` as the new last child of `p`: either `c`
/// becomes the sole child, or it is chained after the previous last child.
pub open spec fn spec_append_child(nodes: Seq<NodeModel>, p: usize, c: usize) -> Seq<NodeModel> {
    let pn = nodes[p as int];
    let cn = nodes[c as int];
    if pn.first_child is None {
        nodes
            .update(p as int, NodeModel { first_child: Some(c), last_child: Some(c), ..pn })
            .update(c as int, NodeModel { parent: Some(p), ..cn })
    } else {
        let l = pn.last_child->0;
        let ln = nodes[l as int];
        nodes
            .update(l as int, NodeModel { next_sibling: Some(c), ..ln })
            .update(p as int, NodeModel { last_child: Some(c), ..pn })
            .update(c as int, NodeModel { parent: Some(p), previous_sibling: Some(l), ..cn })
    }
}

/// The arena: owns every node; nodes refer to each other by index.
pub struct NodeArena {
    nodes: Vec<Node>,
}

impl View for NodeArena {
    type V = Seq<NodeModel>;

    closed spec fn view(&self) -> Seq<NodeModel> {
        Seq::new(self.nodes@.len(), |i: int| self.nodes@[i]@)
    }
}

impl NodeArena {
    pub fn new() -> (a: Self)
        ensures
            a@ == Seq::<NodeModel>::empty(),
    {
        let a = NodeArena { nodes: Vec::new() };
        proof {
            assert(a@ =~= Seq::<NodeModel>::empty());
        }
        a
    }

    pub fn len(&self) -> (n: usize)
        ensures
            n == self@.len(),
    {
        self.nodes.len()
    }

    pub fn node(&self, i: usize) -> (n: &Node)
        requires
            i < self@.len(),
        ensures
            n@ == self@[i as int],
    {
        &self.nodes[i]
    }

    /// Place a node in the arena; its index is stable for the arena's life.
    pub fn new_node(&mut self, node: Node) -> (i: usize)
        ensures
            i == old(self)@.len(),
            final(self)@ == old(self)@.push(node@),
    {
        let i = self.nodes.len();
        self.nodes.push(node);
        proof {
            assert(self@ =~= old(self)@.push(node@));
        }
        i
    }

    /// Append one character to the text of the text node at `i`, in place:
    /// no node is created or removed and no link changes.
    pub fn append_char_to_text(&mut self, i: usize, c: char)
        requires
            i < old(self)@.len(),
            old(self)@[i as int].kind is Text,
        ensures
            final(self)@ == old(self)@.update(
                i as int,
                NodeModel {
                    kind: NodeKindModel::Text(spec_text_of(old(self)@[i as int].kind).push(c)),
                    ..old(self)@[i as int]
                },
            ),
    {
        let k = self.nodes[i].kind.clone();
        match k {
            NodeKind::Text(mut s) => {
                push_char(&mut s, c);
                let n = Node {
                    kind: NodeKind::Text(s),
                    parent: self.nodes[i].parent,
                    first_child: self.nodes[i].first_child,
                    last_child: self.nodes[i].last_child,
                    next_sibling: self.nodes[i].next_sibling,
                    previous_sibling: self.nodes[i].previous_sibling,
                };
                self.nodes.set(i, n);
                proof {
                    assert(self@ =~= old(self)@.update(
                        i as int,
                        NodeModel {
                            kind: NodeKindModel::Text(
                                spec_text_of(old(self)@[i as int].kind).push(c),
                            ),
                            ..old(self)@[i as int]
                        },
                    ));
                }
            },
            _ => {
                proof {
                    assert(false);
                }
            },
        }
    }

    /// Append `child` as the new last child of `parent`, reconciling the
    /// previous last child's sibling links so that append order is preserved.
    pub fn append_child_node(&mut self, parent: usize, child: usize)
        requires
            parent < old(self)@.len(),
            child < old(self)@.len(),
            parent != child,
            node_links_wf(old(self)@, parent as int),
            old(self)@[parent as int].last_child != Some(child),
        ensures
            final(self)@ == spec_append_child(old(self)@, parent, child),
            final(self)@.len() == old(self)@.len(),
    {
        if self.nodes[parent].first_child.is_none() {
            let new_p = Node {
                kind: self.nodes[parent].kind.clone(),
                parent: self.nodes[parent].parent,
                first_child: Some(child),
                last_child: Some(child),
                next_sibling: self.nodes[parent].next_sibling,
                previous_sibling: self.nodes[parent].previous_sibling,
            };
            self.nodes.set(parent, new_p);
            let new_c = Node {
                kind: self.nodes[child].kind.clone(),
                parent: Some(parent),
                first_child: self.nodes[child].first_child,
                last_child: self.nodes[child].last_child,
                next_sibling: self.nodes[child].next_sibling,
                previous_sibling: self.nodes[child].previous_sibling,
            };
            self.nodes.set(child, new_c);
            proof {
                assert(self@ =~= spec_append_child(old(self)@, parent, child));
            }
        } else {
            let l = match self.nodes[parent].last_child {
                Some(l) => l,
                None => {
                    proof {
                        assert(false);
                    }
                    0
                },
            };
            let new_l = Node {
                kind: self.nodes[l].kind.clone(),
                parent: self.nodes[l].parent,
                first_child: self.nodes[l].first_child,
                last_child: self.nodes[l].last_child,
                next_sibling: Some(child),
                previous_sibling: self.nodes[l].previous_sibling,
            };
            self.nodes.set(l, new_l);
            let new_p = Node {
                kind: self.nodes[parent].kind.clone(),
                parent: self.nodes[parent].parent,
                first_child: self.nodes[parent].first_child,
                last_child: Some(child),
                next_sibling: self.nodes[parent].next_sibling,
                previous_sibling: self.nodes[parent].previous_sibling,
            };
            self.nodes.set(parent, new_p);
            let new_c = Node {
                kind: self.nodes[child].kind.clone(),
                parent: Some(parent),
                first_child: self.nodes[child].first_child,
                last_child: self.nodes[child].last_child,
                next_sibling: self.nodes[child].next_sibling,
                previous_sibling: Some(l),
            };
            self.nodes.set(child, new_c);
            proof {
                assert(self@ =~= spec_append_child(old(self)@, parent, child));
            }
        }
    }
}

} // verus!
