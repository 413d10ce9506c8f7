//! The node arena: node data, handles, the tree invariant and the
//! constructors and accessors of nodes.

use vstd::prelude::*;
use crate::attributes::{
    keys_ascending, lookup, with_entry, without_entry, AttributeTable, Entries,
};
use crate::bytes::copy_bytes;
use crate::search::{first_index_of, lemma_first_index_is, lemma_first_index_of};

verus! {

/// The kind number of an element node.
pub const ELEMENT_NODE: u8 = 1;

/// The kind number of a text node.
pub const TEXT_NODE: u8 = 3;

/// A handle to the script-visible object that the host has bound to a node.
#[derive(Clone, Copy, PartialEq, Eq, Structural, Debug)]
pub struct ScriptObject {
    pub id: u64,
}

/// A handle to a node of an arena. Handles are plain values: any number of
/// them may name the same node, and a node keeps its handle for life.
#[derive(Clone, Copy, PartialEq, Eq, Structural, Debug)]
pub struct XmlNode {
    pub index: usize,
}

/// What a node holds.
pub struct XmlNodeData {
    script_object: Option<ScriptObject>,
    attributes_script_object: Option<ScriptObject>,
    parent: Option<XmlNode>,
    prev_sibling: Option<XmlNode>,
    next_sibling: Option<XmlNode>,
    node_type: u8,
    node_value: Option<Vec<u8>>,
    attributes: AttributeTable,
    children: Vec<XmlNode>,
}

/// The mathematical content of a node.
#[verifier::ext_equal]
pub struct NodeView {
    /// `ELEMENT_NODE` or `TEXT_NODE`.
    pub node_type: u8,
    /// The tag name of an element (absent for a document root), or the
    /// content of a text node.
    pub node_value: Option<Seq<u8>>,
    pub attributes: Entries,
    pub children: Seq<XmlNode>,
    pub parent: Option<XmlNode>,
    pub prev_sibling: Option<XmlNode>,
    pub next_sibling: Option<XmlNode>,
    pub script_object: Option<ScriptObject>,
    pub attributes_script_object: Option<ScriptObject>,
}

/// The mathematical content of an arena: the content of each node, by index.
pub type Forest = Seq<NodeView>;

/// The view of an optional byte string.
pub open spec fn opt_view(o: Option<Vec<u8>>) -> Option<Seq<u8>> {
    match o {
        Some(v) => Some(v@),
        None => None,
    }
}

impl View for XmlNodeData {
    type V = NodeView;

    closed spec fn view(&self) -> NodeView {
        NodeView {
            node_type: self.node_type,
            node_value: opt_view(self.node_value),
            attributes: self.attributes@,
            children: self.children@,
            parent: self.parent,
            prev_sibling: self.prev_sibling,
            next_sibling: self.next_sibling,
            script_object: self.script_object,
            attributes_script_object: self.attributes_script_object,
        }
    }
}

/// The arena that owns the nodes of any number of trees.
pub struct XmlArena {
    nodes: Vec<XmlNodeData>,
}

impl View for XmlArena {
    type V = Forest;

    closed spec fn view(&self) -> Forest {
        Seq::new(self.nodes@.len(), |i: int| self.nodes@[i]@)
    }
}

/// The handle of the node at index `i`.
pub open spec fn node_at(i: int) -> XmlNode {
    XmlNode { index: i as usize }
}

/// `n` names a node of `s`.
pub open spec fn in_range(s: Forest, n: XmlNode) -> bool {
    n.index < s.len()
}

/// `o` is absent or names a node of `s`.
pub open spec fn opt_in_range(s: Forest, o: Option<XmlNode>) -> bool {
    o matches Some(n) ==> in_range(s, n)
}

/// The sibling before position `k` of a child list, if any.
pub open spec fn sibling_before(kids: Seq<XmlNode>, k: int) -> Option<XmlNode> {
    if 0 < k <= kids.len() {
        Some(kids[k - 1])
    } else {
        None
    }
}

/// The sibling after position `k` of a child list, if any.
pub open spec fn sibling_after(kids: Seq<XmlNode>, k: int) -> Option<XmlNode> {
    if 0 <= k && k + 1 < kids.len() {
        Some(kids[k + 1])
    } else {
        None
    }
}

/// What holds of node `i` by itself: its links name nodes of the arena, it
/// occurs among the children of its parent, a node without a parent has no
/// siblings, no child occurs twice, its kind is one of the two kinds, a text
/// node has content, and its attribute names ascend.
pub open spec fn local_ok(s: Forest, i: int) -> bool {
    let n = s[i];
    &&& opt_in_range(s, n.parent)
    &&& opt_in_range(s, n.prev_sibling)
    &&& opt_in_range(s, n.next_sibling)
    &&& (n.parent matches Some(p) ==> s[p.index as int].children.contains(node_at(i)))
    &&& (n.parent is None ==> n.prev_sibling is None && n.next_sibling is None)
    &&& n.children.no_duplicates()
    &&& (n.node_type == ELEMENT_NODE || n.node_type == TEXT_NODE)
    &&& (n.node_type == TEXT_NODE ==> n.node_value is Some)
    &&& keys_ascending(n.attributes)
}

/// What holds of the child at position `k` of node `i`: it is a node of the
/// arena, its parent is node `i`, and its sibling links name its neighbours
/// in the child list.
pub open spec fn child_ok(s: Forest, i: int, k: int) -> bool {
    let kids = s[i].children;
    let c = kids[k];
    &&& in_range(s, c)
    &&& s[c.index as int].parent == Some(node_at(i))
    &&& s[c.index as int].prev_sibling == sibling_before(kids, k)
    &&& s[c.index as int].next_sibling == sibling_after(kids, k)
}

/// `r` ranks the nodes of `s` below the bound `b` so that every node ranks
/// above its parent.
pub open spec fn ranked(s: Forest, r: Seq<nat>, b: nat) -> bool {
    &&& r.len() == s.len()
    &&& forall|i: int| 0 <= i < s.len() ==> #[trigger] r[i] < b
    &&& forall|i: int|
        0 <= i < s.len() ==> (#[trigger] s[i].parent matches Some(p) ==> p.index < s.len()
            && r[p.index as int] < r[i])
}

/// No node is its own ancestor.
pub open spec fn acyclic(s: Forest) -> bool {
    exists|r: Seq<nat>, b: nat| ranked(s, r, b)
}

/// The tree invariant: parent, child and sibling links agree with each other
/// everywhere, and the child relation has no cycle.
pub open spec fn forest_wf(s: Forest) -> bool {
    &&& s.len() <= usize::MAX
    &&& forall|i: int| 0 <= i < s.len() ==> #[trigger] local_ok(s, i)
    &&& forall|i: int, k: int|
        0 <= i < s.len() && 0 <= k < s[i].children.len() ==> #[trigger] child_ok(s, i, k)
    &&& acyclic(s)
}

/// A ranking of an acyclic forest.
pub closed spec fn ranking(s: Forest) -> (Seq<nat>, nat) {
    choose|w: (Seq<nat>, nat)| ranked(s, w.0, w.1)
}

/// The depth budget of a node: a number that falls along every parent link.
pub open spec fn rank_of(s: Forest, n: XmlNode) -> nat {
    ranking(s).0[n.index as int]
}

/// The height budget of a node: a number that falls along every child link.
pub open spec fn height_of(s: Forest, n: XmlNode) -> nat {
    (ranking(s).1 - ranking(s).0[n.index as int]) as nat
}

/// In an acyclic forest a node's parent has a smaller depth budget and a
/// larger height budget than the node.
pub proof fn lemma_ranking(s: Forest, n: XmlNode)
    requires
        acyclic(s),
        in_range(s, n),
    ensures
        s[n.index as int].parent matches Some(p) ==> in_range(s, p) && rank_of(s, p) < rank_of(s, n)
            && height_of(s, n) < height_of(s, p),
        height_of(s, n) > 0,
{
    let (r, b) = choose|r: Seq<nat>, b: nat| ranked(s, r, b);
    assert(ranked(s, (r, b).0, (r, b).1));
    let w = ranking(s);
    assert(ranked(s, w.0, w.1));
    assert(w.0[n.index as int] < w.1);
    if let Some(p) = s[n.index as int].parent {
        assert(w.0[p.index as int] < w.1);
    }
}

/// A node followed by its parent, its parent's parent, and so on to the root
/// of its tree.
pub open spec fn ancestors(s: Forest, n: XmlNode) -> Seq<XmlNode>
    decreases rank_of(s, n),
    when acyclic(s) && in_range(s, n)
    via ancestors_decreases
{
    match s[n.index as int].parent {
        Some(p) => seq![n] + ancestors(s, p),
        None => seq![n],
    }
}

#[via_fn]
proof fn ancestors_decreases(s: Forest, n: XmlNode) {
    lemma_ranking(s, n);
}

/// `a` is `n` or an ancestor of `n`.
pub open spec fn is_ancestor_or_self(s: Forest, a: XmlNode, n: XmlNode) -> bool {
    ancestors(s, n).contains(a)
}

/// A node is its own first ancestor, and the other ancestors of a node are
/// the ancestors of its parent.
pub proof fn lemma_ancestors(s: Forest, a: XmlNode, n: XmlNode)
    requires
        acyclic(s),
        in_range(s, n),
    ensures
        ancestors(s, n).len() > 0,
        ancestors(s, n)[0] == n,
        is_ancestor_or_self(s, a, n) <==> (a == n || (s[n.index as int].parent matches Some(p)
            && is_ancestor_or_self(s, a, p))),
        forall|k: int| 0 <= k < ancestors(s, n).len() ==> in_range(s, #[trigger] ancestors(s, n)[k]),
    decreases rank_of(s, n),
{
    lemma_ranking(s, n);
    match s[n.index as int].parent {
        Some(p) => {
            lemma_ancestors(s, a, p);
            let tail = ancestors(s, p);
            let all = ancestors(s, n);
            assert(all == seq![n] + tail);
            if a == n {
                assert(all[0] == a);
            }
            if tail.contains(a) {
                let k = choose|k: int| 0 <= k < tail.len() && tail[k] == a;
                assert(all[k + 1] == a);
            }
            if all.contains(a) && a != n {
                let k = choose|k: int| 0 <= k < all.len() && all[k] == a;
                assert(tail[k - 1] == a);
            }
            assert forall|k: int| 0 <= k < all.len() implies in_range(s, #[trigger] all[k]) by {
                if k > 0 {
                    assert(all[k] == tail[k - 1]);
                }
            }
        },
        None => {
            assert(ancestors(s, n) == seq![n]);
            if a == n {
                assert(ancestors(s, n)[0] == a);
            }
        },
    }
}

/// A fresh node: no links, no attributes, no children, no bound objects.
pub open spec fn fresh_node(node_type: u8, node_value: Option<Seq<u8>>) -> NodeView {
    NodeView {
        node_type,
        node_value,
        attributes: Entries::empty(),
        children: Seq::empty(),
        parent: None,
        prev_sibling: None,
        next_sibling: None,
        script_object: None,
        attributes_script_object: None,
    }
}

/// A node has no link at all: no parent, no siblings, no children.
pub open spec fn unlinked(n: NodeView) -> bool {
    &&& n.parent is None
    &&& n.prev_sibling is None
    &&& n.next_sibling is None
    &&& n.children.len() == 0
}

/// A copy of the content of a node: its kind, value and attributes, with no
/// links and no bound objects.
pub open spec fn copy_of(n: NodeView) -> NodeView {
    NodeView { attributes: n.attributes, ..fresh_node(n.node_type, n.node_value) }
}

/// Adding a node that has no links keeps the tree invariant.
pub proof fn lemma_push_unlinked(s: Forest, v: NodeView)
    requires
        forest_wf(s),
        s.len() < usize::MAX,
        unlinked(v),
        content_ok(v),
    ensures
        forest_wf(s.push(v)),
{
    let t = s.push(v);
    assert forall|i: int| 0 <= i < t.len() implies #[trigger] local_ok(t, i) by {
        if i < s.len() {
            assert(local_ok(s, i));
            assert(t[i] == s[i]);
            if let Some(p) = s[i].parent {
                assert(t[p.index as int] == s[p.index as int]);
            }
        }
    }
    assert forall|i: int, k: int|
        0 <= i < t.len() && 0 <= k < t[i].children.len() implies #[trigger] child_ok(t, i, k) by {
        assert(t[i] == s[i]);
        assert(child_ok(s, i, k));
        let c = s[i].children[k];
        assert(t[c.index as int] == s[c.index as int]);
    }
    let (r, b) = choose|r: Seq<nat>, b: nat| ranked(s, r, b);
    let r2 = r.push(0nat);
    let b2 = b + 1;
    assert forall|i: int| 0 <= i < t.len() implies #[trigger] r2[i] < b2 by {
        if i < s.len() {
            assert(r[i] < b);
        }
    }
    assert forall|i: int| 0 <= i < t.len() implies (#[trigger] t[i].parent matches Some(p)
        ==> p.index < t.len() && r2[p.index as int] < r2[i]) by {
        if i < s.len() {
            assert(t[i] == s[i]);
            if let Some(p) = s[i].parent {
                assert(r2[p.index as int] == r[p.index as int]);
                assert(r2[i] == r[i]);
            }
        }
    }
    assert(ranked(t, r2, b2 as nat));
}

impl XmlArena {
    /// The tree invariant holds of this arena.
    pub open spec fn wf(&self) -> bool {
        forest_wf(self@)
    }

    /// `n` names a node of this arena.
    pub open spec fn contains(&self, n: XmlNode) -> bool {
        in_range(self@, n)
    }

    /// An arena without nodes.
    pub fn new() -> (r: XmlArena)
        ensures
            r@ == Forest::empty(),
            r.wf(),
    {
        let r = XmlArena { nodes: Vec::new() };
        proof {
            assert(r@ =~= Forest::empty());
            assert(ranked(r@, Seq::<nat>::empty(), 0nat));
        }
        r
    }

    /// The number of nodes.
    pub fn len(&self) -> (r: usize)
        ensures
            r == self@.len(),
    {
        self.nodes.len()
    }

    /// Whether `n` names a node of this arena.
    pub fn has_node(&self, n: XmlNode) -> (r: bool)
        ensures
            r == self.contains(n),
    {
        n.index < self.nodes.len()
    }

    /// Adds a fresh node and hands out its handle.
    fn allocate(&mut self, node_type: u8, node_value: Option<Vec<u8>>) -> (r: XmlNode)
        requires
            node_type == ELEMENT_NODE || node_type == TEXT_NODE,
            node_type == TEXT_NODE ==> node_value is Some,
        ensures
            r.index == old(self)@.len(),
            final(self)@ == old(self)@.push(fresh_node(node_type, opt_view(node_value))),
            old(self).wf() ==> final(self).wf(),
    {
        let index = self.nodes.len();
        let data = XmlNodeData {
            script_object: None,
            attributes_script_object: None,
            parent: None,
            prev_sibling: None,
            next_sibling: None,
            node_type,
            node_value,
            attributes: AttributeTable::new(),
            children: Vec::new(),
        };
        proof {
            assert(data@ =~~= fresh_node(node_type, opt_view(node_value)));
        }
        self.nodes.push(data);
        let grown = self.nodes.len();
        proof {
            assert(self@ =~= old(self)@.push(fresh_node(node_type, opt_view(node_value))));
            assert(grown == old(self)@.len() + 1);
            if old(self).wf() {
                lemma_push_unlinked(old(self)@, fresh_node(node_type, opt_view(node_value)));
            }
        }
        XmlNode { index }
    }
}

impl XmlNode {
    /// Makes a text node that holds `contents`.
    pub fn new_text(arena: &mut XmlArena, contents: Vec<u8>) -> (r: XmlNode)
        ensures
            r.index == old(arena)@.len(),
            final(arena)@ == old(arena)@.push(fresh_node(TEXT_NODE, Some(contents@))),
            old(arena).wf() ==> final(arena).wf(),
    {
        arena.allocate(TEXT_NODE, Some(contents))
    }

    /// Makes an element node with the tag name `element_name`.
    pub fn new_element(arena: &mut XmlArena, element_name: Vec<u8>) -> (r: XmlNode)
        ensures
            r.index == old(arena)@.len(),
            final(arena)@ == old(arena)@.push(fresh_node(ELEMENT_NODE, Some(element_name@))),
            old(arena).wf() ==> final(arena).wf(),
    {
        arena.allocate(ELEMENT_NODE, Some(element_name))
    }

    /// Makes a document root: an element node without a tag name.
    pub fn new_document_root(arena: &mut XmlArena) -> (r: XmlNode)
        ensures
            r.index == old(arena)@.len(),
            final(arena)@ == old(arena)@.push(fresh_node(ELEMENT_NODE, None)),
            old(arena).wf() ==> final(arena).wf(),
    {
        arena.allocate(ELEMENT_NODE, None)
    }
}

/// The content of a node apart from its links is as the tree invariant asks.
pub open spec fn content_ok(n: NodeView) -> bool {
    &&& (n.node_type == ELEMENT_NODE || n.node_type == TEXT_NODE)
    &&& (n.node_type == TEXT_NODE ==> n.node_value is Some)
    &&& keys_ascending(n.attributes)
}

/// Two nodes have the same links: parent, siblings and children.
pub open spec fn same_links(a: NodeView, b: NodeView) -> bool {
    &&& a.parent == b.parent
    &&& a.prev_sibling == b.prev_sibling
    &&& a.next_sibling == b.next_sibling
    &&& a.children == b.children
}

/// A change that touches no link keeps the tree invariant, as long as the
/// content of every node stays in order.
pub proof fn lemma_same_links(s: Forest, t: Forest)
    requires
        forest_wf(s),
        t.len() == s.len(),
        forall|i: int| 0 <= i < s.len() ==> same_links(#[trigger] s[i], t[i]),
        forall|i: int| 0 <= i < s.len() ==> content_ok(#[trigger] t[i]),
    ensures
        forest_wf(t),
{
    assert forall|i: int| 0 <= i < t.len() implies #[trigger] local_ok(t, i) by {
        assert(local_ok(s, i));
        assert(same_links(s[i], t[i]));
        assert(content_ok(t[i]));
        if let Some(p) = s[i].parent {
            assert(same_links(s[p.index as int], t[p.index as int]));
        }
    }
    assert forall|i: int, k: int|
        0 <= i < t.len() && 0 <= k < t[i].children.len() implies #[trigger] child_ok(t, i, k) by {
        assert(same_links(s[i], t[i]));
        assert(child_ok(s, i, k));
        let c = s[i].children[k];
        assert(same_links(s[c.index as int], t[c.index as int]));
    }
    let (r, b) = choose|r: Seq<nat>, b: nat| ranked(s, r, b);
    assert forall|i: int| 0 <= i < t.len() implies (#[trigger] t[i].parent matches Some(p)
        ==> p.index < t.len() && r[p.index as int] < r[i]) by {
        assert(same_links(s[i], t[i]));
        assert(s[i].parent == t[i].parent);
    }
    assert(ranked(t, r, b));
}

/// The tag name of a node: its value if it is an element, nothing otherwise.
pub open spec fn name_of(n: NodeView) -> Option<Seq<u8>> {
    if n.node_type == ELEMENT_NODE {
        n.node_value
    } else {
        None
    }
}

/// The text of a node: its value unless it is an element.
pub open spec fn text_of(n: NodeView) -> Option<Seq<u8>> {
    if n.node_type == ELEMENT_NODE {
        None
    } else {
        n.node_value
    }
}

impl XmlNodeData {
    /// The attribute table of the node.
    pub fn attributes(&self) -> (r: &AttributeTable)
        ensures
            r@ == self@.attributes,
    {
        &self.attributes
    }

    /// The children of the node, in order.
    pub fn children(&self) -> (r: &Vec<XmlNode>)
        ensures
            r@ == self@.children,
    {
        &self.children
    }

    /// The kind number of the node.
    pub fn node_type(&self) -> (r: u8)
        ensures
            r == self@.node_type,
    {
        self.node_type
    }

    /// The tag name or text content of the node.
    pub fn value(&self) -> (r: &Option<Vec<u8>>)
        ensures
            opt_view(*r) == self@.node_value,
    {
        &self.node_value
    }
}

/// The forest after nodes `a` and `b` have exchanged everything they hold.
pub open spec fn swapped(s: Forest, a: XmlNode, b: XmlNode) -> Forest {
    s.update(a.index as int, s[b.index as int]).update(b.index as int, s[a.index as int])
}

impl XmlNodeData {
    /// A placeholder node: an element without name, attributes, links or bound objects.
    fn vacant() -> (r: XmlNodeData)
        ensures
            r@ == fresh_node(ELEMENT_NODE, None),
    {
        let r = XmlNodeData {
            script_object: None,
            attributes_script_object: None,
            parent: None,
            prev_sibling: None,
            next_sibling: None,
            node_type: ELEMENT_NODE,
            node_value: None,
            attributes: AttributeTable::new(),
            children: Vec::new(),
        };
        proof {
            assert(r@ =~~= fresh_node(ELEMENT_NODE, None));
        }
        r
    }
}

impl XmlArena {
    /// Adds a node that copies the kind, value and attributes of `source`,
    /// and hands out its handle.
    pub(crate) fn allocate_like(&mut self, source: XmlNode) -> (r: XmlNode)
        requires
            old(self).contains(source),
        ensures
            r.index == old(self)@.len(),
            final(self)@ == old(self)@.push(copy_of(old(self)@[source.index as int])),
            old(self).wf() ==> final(self).wf(),
    {
        let index = self.nodes.len();
        let model = &self.nodes[source.index];
        let node_value = match &model.node_value {
            Some(v) => Some(copy_bytes(v.as_slice())),
            None => None,
        };
        let data = XmlNodeData {
            script_object: None,
            attributes_script_object: None,
            parent: None,
            prev_sibling: None,
            next_sibling: None,
            node_type: model.node_type,
            node_value,
            attributes: model.attributes.duplicate(),
            children: Vec::new(),
        };
        proof {
            assert(data@ =~~= copy_of(self@[source.index as int]));
        }
        self.nodes.push(data);
        let grown = self.nodes.len();
        proof {
            assert(self@ =~= old(self)@.push(copy_of(old(self)@[source.index as int])));
            assert(grown == old(self)@.len() + 1);
            if old(self).wf() {
                assert(local_ok(old(self)@, source.index as int));
                lemma_push_unlinked(old(self)@, copy_of(old(self)@[source.index as int]));
            }
        }
        XmlNode { index }
    }

    /// Exchanges what nodes `a` and `b` hold.
    pub(crate) fn exchange(&mut self, a: XmlNode, b: XmlNode)
        requires
            old(self).contains(a),
            old(self).contains(b),
            a != b,
        ensures
            final(self)@ == swapped(old(self)@, a, b),
    {
        let mut held = XmlNodeData::vacant();
        core::mem::swap(&mut self.nodes[a.index], &mut held);
        core::mem::swap(&mut self.nodes[b.index], &mut held);
        core::mem::swap(&mut self.nodes[a.index], &mut held);
        proof {
            assert(self@ =~= swapped(old(self)@, a, b));
        }
    }

    /// The data of node `n`.
    pub fn data(&self, n: XmlNode) -> (r: &XmlNodeData)
        requires
            self.contains(n),
        ensures
            r@ == self@[n.index as int],
    {
        &self.nodes[n.index]
    }
}

impl XmlNode {
    /// The parent of this node, if it has one.
    pub fn parent(self, arena: &XmlArena) -> (r: Option<XmlNode>)
        requires
            arena.contains(self),
        ensures
            r == arena@[self.index as int].parent,
    {
        arena.nodes[self.index].parent
    }

    /// The sibling before this node, if it has one.
    pub fn prev_sibling(self, arena: &XmlArena) -> (r: Option<XmlNode>)
        requires
            arena.contains(self),
        ensures
            r == arena@[self.index as int].prev_sibling,
    {
        arena.nodes[self.index].prev_sibling
    }

    /// The sibling after this node, if it has one.
    pub fn next_sibling(self, arena: &XmlArena) -> (r: Option<XmlNode>)
        requires
            arena.contains(self),
        ensures
            r == arena@[self.index as int].next_sibling,
    {
        arena.nodes[self.index].next_sibling
    }

    /// Sets the parent link of this node and nothing else.
    pub(crate) fn set_parent(self, arena: &mut XmlArena, new_parent: Option<XmlNode>)
        requires
            old(arena).contains(self),
        ensures
            final(arena)@ == old(arena)@.update(
                self.index as int,
                (NodeView { parent: new_parent, ..old(arena)@[self.index as int] }),
            ),
    {
        arena.nodes[self.index].parent = new_parent;
        proof {
            assert(arena@ =~~= old(arena)@.update(
                self.index as int,
                (NodeView { parent: new_parent, ..old(arena)@[self.index as int] }),
            ));
        }
    }

    /// Sets the previous-sibling link of this node and nothing else.
    pub(crate) fn set_prev_sibling(self, arena: &mut XmlArena, new_prev: Option<XmlNode>)
        requires
            old(arena).contains(self),
        ensures
            final(arena)@ == old(arena)@.update(
                self.index as int,
                (NodeView { prev_sibling: new_prev, ..old(arena)@[self.index as int] }),
            ),
    {
        arena.nodes[self.index].prev_sibling = new_prev;
        proof {
            assert(arena@ =~~= old(arena)@.update(
                self.index as int,
                (NodeView { prev_sibling: new_prev, ..old(arena)@[self.index as int] }),
            ));
        }
    }

    /// Sets the next-sibling link of this node and nothing else.
    pub(crate) fn set_next_sibling(self, arena: &mut XmlArena, new_next: Option<XmlNode>)
        requires
            old(arena).contains(self),
        ensures
            final(arena)@ == old(arena)@.update(
                self.index as int,
                (NodeView { next_sibling: new_next, ..old(arena)@[self.index as int] }),
            ),
    {
        arena.nodes[self.index].next_sibling = new_next;
        proof {
            assert(arena@ =~~= old(arena)@.update(
                self.index as int,
                (NodeView { next_sibling: new_next, ..old(arena)@[self.index as int] }),
            ));
        }
    }

    /// Puts `child` into the child list of this node at `position` and changes
    /// nothing else.
    pub(crate) fn splice_child(self, arena: &mut XmlArena, position: usize, child: XmlNode)
        requires
            old(arena).contains(self),
            position <= old(arena)@[self.index as int].children.len(),
        ensures
            final(arena)@ == old(arena)@.update(
                self.index as int,
                (NodeView {
                    children: old(arena)@[self.index as int].children.insert(position as int, child),
                    ..old(arena)@[self.index as int]
                }),
            ),
    {
        arena.nodes[self.index].children.insert(position, child);
        proof {
            assert(arena@ =~~= old(arena)@.update(
                self.index as int,
                (NodeView {
                    children: old(arena)@[self.index as int].children.insert(position as int, child),
                    ..old(arena)@[self.index as int]
                }),
            ));
        }
    }

    /// Takes the child at `position` out of the child list of this node and
    /// changes nothing else.
    pub(crate) fn unsplice_child(self, arena: &mut XmlArena, position: usize)
        requires
            old(arena).contains(self),
            position < old(arena)@[self.index as int].children.len(),
        ensures
            final(arena)@ == old(arena)@.update(
                self.index as int,
                (NodeView {
                    children: old(arena)@[self.index as int].children.remove(position as int),
                    ..old(arena)@[self.index as int]
                }),
            ),
    {
        arena.nodes[self.index].children.remove(position);
        proof {
            assert(arena@ =~~= old(arena)@.update(
                self.index as int,
                (NodeView {
                    children: old(arena)@[self.index as int].children.remove(position as int),
                    ..old(arena)@[self.index as int]
                }),
            ));
        }
    }

    /// Sets the slot of the bound object of this node and nothing else.
    pub(crate) fn set_script_object(self, arena: &mut XmlArena, object: Option<ScriptObject>)
        requires
            old(arena).contains(self),
        ensures
            final(arena)@ == old(arena)@.update(
                self.index as int,
                (NodeView { script_object: object, ..old(arena)@[self.index as int] }),
            ),
    {
        arena.nodes[self.index].script_object = object;
        proof {
            assert(arena@ =~~= old(arena)@.update(
                self.index as int,
                (NodeView { script_object: object, ..old(arena)@[self.index as int] }),
            ));
        }
    }

    /// Sets the slot of the bound attributes object of this node and nothing
    /// else.
    pub(crate) fn set_attributes_script_object(
        self,
        arena: &mut XmlArena,
        object: Option<ScriptObject>,
    )
        requires
            old(arena).contains(self),
        ensures
            final(arena)@ == old(arena)@.update(
                self.index as int,
                (NodeView { attributes_script_object: object, ..old(arena)@[self.index as int] }),
            ),
    {
        arena.nodes[self.index].attributes_script_object = object;
        proof {
            assert(arena@ =~~= old(arena)@.update(
                self.index as int,
                (NodeView { attributes_script_object: object, ..old(arena)@[self.index as int] }),
            ));
        }
    }

    /// The object bound to this node, if one is bound.
    pub fn get_script_object(self, arena: &XmlArena) -> (r: Option<ScriptObject>)
        requires
            arena.contains(self),
        ensures
            r == arena@[self.index as int].script_object,
    {
        arena.nodes[self.index].script_object
    }

    /// The object bound to the attributes of this node, if one is bound.
    pub fn get_attributes_script_object(self, arena: &XmlArena) -> (r: Option<ScriptObject>)
        requires
            arena.contains(self),
        ensures
            r == arena@[self.index as int].attributes_script_object,
    {
        arena.nodes[self.index].attributes_script_object
    }

    /// The kind number of this node: `ELEMENT_NODE` or `TEXT_NODE`.
    pub fn node_type(self, arena: &XmlArena) -> (r: u8)
        requires
            arena.contains(self),
        ensures
            r == arena@[self.index as int].node_type,
    {
        arena.nodes[self.index].node_type
    }

    /// The tag name of this node, if it is an element with a name.
    pub fn node_name(self, arena: &XmlArena) -> (r: Option<Vec<u8>>)
        requires
            arena.contains(self),
        ensures
            opt_view(r) == name_of(arena@[self.index as int]),
    {
        let data = &arena.nodes[self.index];
        if data.node_type == ELEMENT_NODE {
            match &data.node_value {
                Some(v) => Some(copy_bytes(v.as_slice())),
                None => None,
            }
        } else {
            None
        }
    }

    /// The text of this node, if it is not an element.
    pub fn node_value(self, arena: &XmlArena) -> (r: Option<Vec<u8>>)
        requires
            arena.contains(self),
        ensures
            opt_view(r) == text_of(arena@[self.index as int]),
    {
        let data = &arena.nodes[self.index];
        if data.node_type == ELEMENT_NODE {
            None
        } else {
            match &data.node_value {
                Some(v) => Some(copy_bytes(v.as_slice())),
                None => None,
            }
        }
    }

    /// Gives this node the value `value`: a tag name if it is an element, a
    /// text if it is not.
    pub fn set_node_value(self, arena: &mut XmlArena, value: Vec<u8>)
        requires
            old(arena).contains(self),
        ensures
            final(arena)@ == old(arena)@.update(
                self.index as int,
                (NodeView { node_value: Some(value@), ..old(arena)@[self.index as int] }),
            ),
            old(arena).wf() ==> final(arena).wf(),
    {
        arena.nodes[self.index].node_value = Some(value);
        proof {
            assert(arena@ =~~= old(arena)@.update(
                self.index as int,
                (NodeView { node_value: Some(value@), ..old(arena)@[self.index as int] }),
            ));
            if old(arena).wf() {
                assert forall|i: int| 0 <= i < arena@.len() implies content_ok(
                    #[trigger] arena@[i],
                ) by {
                    assert(local_ok(old(arena)@, i));
                }
                lemma_same_links(old(arena)@, arena@);
            }
        }
    }

    /// The number of children of this node.
    pub fn children_len(self, arena: &XmlArena) -> (r: usize)
        requires
            arena.contains(self),
        ensures
            r == arena@[self.index as int].children.len(),
    {
        arena.nodes[self.index].children.len()
    }

    /// The position of `child` among the children of this node, if it is one
    /// of them.
    pub fn child_position(self, arena: &XmlArena, child: XmlNode) -> (r: Option<usize>)
        requires
            arena.contains(self),
        ensures
            match r {
                Some(k) => first_index_of(arena@[self.index as int].children, child) == Some(
                    k as int,
                ),
                None => first_index_of(arena@[self.index as int].children, child) is None,
            },
    {
        let kids = &arena.nodes[self.index].children;
        let mut i: usize = 0;
        while i < kids.len()
            invariant
                i <= kids@.len(),
                kids@ == arena@[self.index as int].children,
                forall|j: int| 0 <= j < i ==> kids@[j] != child,
            decreases kids@.len() - i,
        {
            if kids[i] == child {
                proof {
                    lemma_first_index_is(kids@, child, i as int);
                }
                return Some(i);
            }
            i += 1;
        }
        proof {
            lemma_first_index_of(kids@, child);
        }
        None
    }

    /// Whether the parent of `child` is this node.
    pub fn has_child(self, arena: &XmlArena, child: XmlNode) -> (r: bool)
        requires
            arena.contains(child),
        ensures
            r == (arena@[child.index as int].parent == Some(self)),
    {
        match arena.nodes[child.index].parent {
            Some(p) => p == self,
            None => false,
        }
    }

    /// The child at position `index`, if there is one.
    pub fn get_child_by_index(self, arena: &XmlArena, index: usize) -> (r: Option<XmlNode>)
        requires
            arena.contains(self),
        ensures
            r == if index < arena@[self.index as int].children.len() {
                Some(arena@[self.index as int].children[index as int])
            } else {
                None
            },
    {
        let kids = &arena.nodes[self.index].children;
        if index < kids.len() {
            Some(kids[index])
        } else {
            None
        }
    }

    /// The children of this node, in order.
    pub fn children(self, arena: &XmlArena) -> (r: Vec<XmlNode>)
        requires
            arena.contains(self),
        ensures
            r@ == arena@[self.index as int].children,
    {
        let kids = &arena.nodes[self.index].children;
        let mut out: Vec<XmlNode> = Vec::new();
        let mut i: usize = 0;
        while i < kids.len()
            invariant
                i <= kids@.len(),
                out@ == kids@.subrange(0, i as int),
            decreases kids@.len() - i,
        {
            out.push(kids[i]);
            proof {
                assert(out@ =~= kids@.subrange(0, i + 1));
            }
            i += 1;
        }
        proof {
            assert(kids@.subrange(0, kids@.len() as int) =~= kids@);
        }
        out
    }

    /// This node, then its parent, then its parent's parent, and so on to
    /// the root of its tree.
    pub fn ancestors(self, arena: &XmlArena) -> (r: Vec<XmlNode>)
        requires
            arena.wf(),
            arena.contains(self),
        ensures
            r@ == ancestors(arena@, self),
    {
        let mut out: Vec<XmlNode> = Vec::new();
        let mut current = self;
        loop
            invariant
                arena.wf(),
                arena.contains(current),
                out@ + ancestors(arena@, current) == ancestors(arena@, self),
            decreases rank_of(arena@, current),
        {
            out.push(current);
            proof {
                lemma_ranking(arena@, current);
            }
            match arena.nodes[current.index].parent {
                Some(p) => {
                    proof {
                        assert(out@ + ancestors(arena@, p) =~= out@.drop_last() + ancestors(
                            arena@,
                            current,
                        ));
                    }
                    current = p;
                },
                None => {
                    proof {
                        assert(out@ =~= out@.drop_last() + ancestors(arena@, current));
                    }
                    return out;
                },
            }
        }
    }

    /// The value of the attribute `name` of this node, if it is set.
    pub fn attribute_value(self, arena: &XmlArena, name: &[u8]) -> (r: Option<Vec<u8>>)
        requires
            arena.contains(self),
        ensures
            opt_view(r) == lookup(arena@[self.index as int].attributes, name@),
    {
        arena.nodes[self.index].attributes.get(name)
    }

    /// The names of the attributes of this node, in ascending order.
    pub fn attribute_keys(self, arena: &XmlArena) -> (r: Vec<Vec<u8>>)
        requires
            arena.contains(self),
        ensures
            r@.len() == arena@[self.index as int].attributes.len(),
            forall|i: int|
                0 <= i < r@.len() ==> #[trigger] r@[i]@ == arena@[self.index as int].attributes[i].0,
    {
        arena.nodes[self.index].attributes.keys()
    }

    /// Sets the attribute `name` of this node to `value`.
    pub fn set_attribute_value(self, arena: &mut XmlArena, name: Vec<u8>, value: Vec<u8>)
        requires
            old(arena).wf(),
            old(arena).contains(self),
        ensures
            final(arena)@ == old(arena)@.update(
                self.index as int,
                (NodeView {
                    attributes: with_entry(
                        old(arena)@[self.index as int].attributes,
                        name@,
                        value@,
                    ),
                    ..old(arena)@[self.index as int]
                }),
            ),
            final(arena).wf(),
    {
        proof {
            assert(local_ok(arena@, self.index as int));
        }
        arena.nodes[self.index].attributes.set(name, value);
        proof {
            assert(arena@ =~~= old(arena)@.update(
                self.index as int,
                (NodeView {
                    attributes: with_entry(
                        old(arena)@[self.index as int].attributes,
                        name@,
                        value@,
                    ),
                    ..old(arena)@[self.index as int]
                }),
            ));
            assert forall|i: int| 0 <= i < arena@.len() implies content_ok(#[trigger] arena@[i]) by {
                assert(local_ok(old(arena)@, i));
            }
            lemma_same_links(old(arena)@, arena@);
        }
    }

    /// Deletes the attribute `name` of this node; nothing changes if it is
    /// not set.
    pub fn delete_attribute(self, arena: &mut XmlArena, name: &[u8])
        requires
            old(arena).wf(),
            old(arena).contains(self),
        ensures
            final(arena)@ == old(arena)@.update(
                self.index as int,
                (NodeView {
                    attributes: without_entry(old(arena)@[self.index as int].attributes, name@),
                    ..old(arena)@[self.index as int]
                }),
            ),
            final(arena).wf(),
    {
        proof {
            assert(local_ok(arena@, self.index as int));
        }
        arena.nodes[self.index].attributes.delete(name);
        proof {
            assert(arena@ =~~= old(arena)@.update(
                self.index as int,
                (NodeView {
                    attributes: without_entry(old(arena)@[self.index as int].attributes, name@),
                    ..old(arena)@[self.index as int]
                }),
            ));
            assert forall|i: int| 0 <= i < arena@.len() implies content_ok(#[trigger] arena@[i]) by {
                assert(local_ok(old(arena)@, i));
            }
            lemma_same_links(old(arena)@, arena@);
        }
    }
}

} // verus!
