//! Laws of the tree: what the operations guarantee together, stated over the
//! mathematical content of the arena and proved from the definitions.

use vstd::prelude::*;
use crate::attributes::with_entry;
use crate::duplicate::{extends, mirrors};
use crate::mutation::{
    attached, attached_node, detached, detached_node, inserted, lemma_attached_wf,
    lemma_child_position, lemma_detached_ancestors, lemma_detached_shape, lemma_detached_wf,
    lemma_no_short_cycle, lemma_parent_position,
};
use crate::search::first_index_of;
use crate::tree::{
    forest_wf, in_range, is_ancestor_or_self, lemma_ancestors, local_ok, node_at, sibling_after,
    sibling_before, Forest, NodeView, XmlNode,
};

verus! {

/// In a well-formed forest a node with a parent stands exactly once among the
/// children of that parent, and its sibling links name its neighbours there:
/// the sibling links of a child list form one chain in the order of the list.
pub proof fn lemma_child_occurs_once(s: Forest, n: XmlNode, p: XmlNode) -> (k: int)
    requires
        forest_wf(s),
        in_range(s, n),
        s[n.index as int].parent == Some(p),
    ensures
        in_range(s, p),
        0 <= k < s[p.index as int].children.len(),
        forall|j: int|
            0 <= j < s[p.index as int].children.len() ==> (s[p.index as int].children[j] == n
                <==> j == k),
        s[n.index as int].prev_sibling == sibling_before(s[p.index as int].children, k),
        s[n.index as int].next_sibling == sibling_after(s[p.index as int].children, k),
{
    let k = lemma_parent_position(s, n);
    assert(local_ok(s, p.index as int));
    k
}

/// A node is a child of a node exactly if that node is its parent.
pub proof fn lemma_parent_iff_child(s: Forest, n: XmlNode, p: XmlNode)
    requires
        forest_wf(s),
        in_range(s, n),
        in_range(s, p),
    ensures
        s[n.index as int].parent == Some(p) <==> s[p.index as int].children.contains(n),
{
    assert(local_ok(s, n.index as int));
    assert(node_at(n.index as int) == n);
    assert(node_at(p.index as int) == p);
    if s[p.index as int].children.contains(n) {
        let k = choose|k: int|
            0 <= k < s[p.index as int].children.len() && s[p.index as int].children[k] == n;
        lemma_child_position(s, p.index as int, k);
    }
}

/// No node is its own ancestor: in a well-formed forest a node that is an
/// ancestor of another is not also its descendant.
pub proof fn lemma_no_cycle(s: Forest, a: XmlNode, b: XmlNode)
    requires
        forest_wf(s),
        in_range(s, a),
        in_range(s, b),
        a != b,
        is_ancestor_or_self(s, a, b),
    ensures
        !is_ancestor_or_self(s, b, a),
    decreases crate::tree::rank_of(s, b),
{
    lemma_ancestors(s, a, b);
    crate::tree::lemma_ranking(s, b);
    if is_ancestor_or_self(s, b, a) {
        // `a` is above `b`, so the rank of `a` is below that of `b`; and the other way round
        lemma_rank_falls(s, a, b);
        lemma_rank_falls(s, b, a);
    }
}

/// The depth budget falls from a node to each of its proper ancestors.
pub proof fn lemma_rank_falls(s: Forest, a: XmlNode, n: XmlNode)
    requires
        forest_wf(s),
        in_range(s, n),
        a != n,
        is_ancestor_or_self(s, a, n),
    ensures
        crate::tree::rank_of(s, a) < crate::tree::rank_of(s, n),
    decreases crate::tree::rank_of(s, n),
{
    lemma_ancestors(s, a, n);
    crate::tree::lemma_ranking(s, n);
    let p = s[n.index as int].parent.unwrap();
    if a != p {
        lemma_rank_falls(s, a, p);
    }
}

/// An insertion that would close a cycle changes nothing: inserting a node
/// under itself or under one of its descendants leaves the whole forest as
/// it was.
pub proof fn lemma_cyclic_insert_is_noop(s: Forest, container: XmlNode, position: int, child: XmlNode)
    requires
        is_ancestor_or_self(s, child, container),
    ensures
        inserted(s, container, position, child) == s,
{
}

/// Reparenting: a child that is inserted under a new parent leaves the child
/// list of its old parent, stands at the asked position of the new one, and
/// the forest stays well formed, for the old parent as for the new one.
pub proof fn lemma_reparented(
    s: Forest,
    container: XmlNode,
    position: int,
    child: XmlNode,
    old_parent: XmlNode,
)
    requires
        forest_wf(s),
        in_range(s, container),
        in_range(s, child),
        0 <= position <= s[container.index as int].children.len(),
        s[child.index as int].parent == Some(old_parent),
        old_parent != container,
        !is_ancestor_or_self(s, child, container),
    ensures
        forest_wf(inserted(s, container, position, child)),
        inserted(s, container, position, child)[old_parent.index as int].children
            == s[old_parent.index as int].children.remove(
            first_index_of(s[old_parent.index as int].children, child).unwrap(),
        ),
        !inserted(s, container, position, child)[old_parent.index as int].children.contains(child),
        inserted(s, container, position, child)[container.index as int].children
            == s[container.index as int].children.insert(position, child),
        inserted(s, container, position, child)[child.index as int].parent == Some(container),
{
    let d = detached(s, child);
    let t = inserted(s, container, position, child);
    let k = lemma_parent_position(s, child);
    lemma_no_short_cycle(s, child, old_parent);
    lemma_detached_wf(s, child);
    lemma_detached_shape(s, child);
    lemma_detached_ancestors(s, child, child, container);
    lemma_ancestors(s, child, container);
    assert(node_at(container.index as int) == container);
    assert(node_at(old_parent.index as int) == old_parent);
    assert(d[container.index as int].children == s[container.index as int].children);
    lemma_attached_wf(d, container, position, child);
    assert(t == attached(d, container, position, child));
    assert(t[container.index as int] == attached_node(
        d,
        container,
        position,
        child,
        container.index as int,
    ));
    assert(t[child.index as int] == attached_node(d, container, position, child, child.index as int));
    // the old parent is no neighbour of the child in its new place
    let kids = d[container.index as int].children;
    if position > 0 {
        lemma_child_position(d, container.index as int, position - 1);
    }
    if position < kids.len() {
        lemma_child_position(d, container.index as int, position);
    }
    assert(t[old_parent.index as int] == attached_node(
        d,
        container,
        position,
        child,
        old_parent.index as int,
    ));
    assert(t[old_parent.index as int].children == d[old_parent.index as int].children);
    // the child list of the old parent had the child once
    assert(local_ok(s, old_parent.index as int));
    let old_kids = s[old_parent.index as int].children;
    let left = old_kids.remove(k);
    if left.contains(child) {
        let j = choose|j: int| 0 <= j < left.len() && left[j] == child;
        let j1 = if j < k { j } else { j + 1 };
        assert(old_kids[j1] == child);
    }
}

/// Removal relinks: once a node has been removed, its former parent has the
/// other children in their old order, the children that stood before and
/// after the node are each other's neighbours, and the node has neither
/// parent nor siblings.
pub proof fn lemma_removal_relinks(s: Forest, n: XmlNode, p: XmlNode) -> (k: int)
    requires
        forest_wf(s),
        in_range(s, n),
        s[n.index as int].parent == Some(p),
    ensures
        forest_wf(detached(s, n)),
        first_index_of(s[p.index as int].children, n) == Some(k),
        detached(s, n)[p.index as int].children == s[p.index as int].children.remove(k),
        0 < k ==> detached(s, n)[s[p.index as int].children[k - 1].index as int].next_sibling
            == sibling_after(s[p.index as int].children, k),
        k + 1 < s[p.index as int].children.len() ==> detached(
            s,
            n,
        )[s[p.index as int].children[k + 1].index as int].prev_sibling == sibling_before(
            s[p.index as int].children,
            k,
        ),
        detached(s, n)[n.index as int].parent is None,
        detached(s, n)[n.index as int].prev_sibling is None,
        detached(s, n)[n.index as int].next_sibling is None,
{
    let t = detached(s, n);
    let k = lemma_parent_position(s, n);
    let kids = s[p.index as int].children;
    lemma_detached_wf(s, n);
    lemma_detached_shape(s, n);
    lemma_no_short_cycle(s, n, p);
    assert(local_ok(s, p.index as int));
    if k > 0 {
        let before = kids[k - 1];
        lemma_child_position(s, p.index as int, k - 1);
        assert(t[before.index as int] == detached_node(s, n, p, k, before.index as int));
    }
    if k + 1 < kids.len() {
        let after = kids[k + 1];
        lemma_child_position(s, p.index as int, k + 1);
        assert(t[after.index as int] == detached_node(s, n, p, k, after.index as int));
        if k > 0 {
            assert(kids[k - 1] != after);
        }
    }
    k
}

/// A copy is independent of its source: whatever is done to a node of the
/// copy, every node that was there before the copy was made stays as it was.
pub proof fn lemma_copy_is_independent(
    before: Forest,
    after: Forest,
    copy: XmlNode,
    changed: NodeView,
)
    requires
        extends(after, before),
        before.len() <= copy.index < after.len(),
    ensures
        extends(after.update(copy.index as int, changed), before),
{
}

/// Setting an attribute on a copy changes neither the attributes nor the
/// children of the source.
pub proof fn lemma_copy_attribute_is_independent(
    before: Forest,
    after: Forest,
    source: XmlNode,
    copy: XmlNode,
    name: Seq<u8>,
    value: Seq<u8>,
)
    requires
        forest_wf(before),
        in_range(before, source),
        extends(after, before),
        mirrors(after, copy, before, source, true, before.len() as int),
    ensures
        after.update(
            copy.index as int,
            (NodeView {
                attributes: with_entry(after[copy.index as int].attributes, name, value),
                ..after[copy.index as int]
            }),
        )[source.index as int] == before[source.index as int],
{
}

} // verus!
