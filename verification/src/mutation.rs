//! The mutation engine: taking a node out of its tree and putting a node
//! into a tree, with the proofs that both keep the tree invariant.

use vstd::prelude::*;
use crate::search::{first_index_of, lemma_first_index_of};
use crate::tree::{
    child_ok, forest_wf, in_range, is_ancestor_or_self, lemma_ancestors,
    lemma_ranking, local_ok, node_at, opt_in_range, rank_of, ranked, sibling_after,
    sibling_before, Forest, NodeView, XmlArena, XmlNode,
};

verus! {

/// What node `i` is once `n`, the child at position `k` of `p`, has left its
/// parent: `n` loses its parent and sibling links, `p` loses the child, the
/// former neighbours of `n` are linked to each other, and every other node
/// stays as it is.
pub open spec fn detached_node(s: Forest, n: XmlNode, p: XmlNode, k: int, i: int) -> NodeView {
    let me = s[n.index as int];
    if i == n.index {
        NodeView { parent: None, prev_sibling: None, next_sibling: None, ..s[i] }
    } else if i == p.index {
        NodeView { children: s[i].children.remove(k), ..s[i] }
    } else if me.prev_sibling == Some(node_at(i)) {
        NodeView { next_sibling: me.next_sibling, ..s[i] }
    } else if me.next_sibling == Some(node_at(i)) {
        NodeView { prev_sibling: me.prev_sibling, ..s[i] }
    } else {
        s[i]
    }
}

/// The forest after `n` has left its parent: unchanged if `n` has none.
pub open spec fn detached(s: Forest, n: XmlNode) -> Forest {
    match s[n.index as int].parent {
        None => s,
        Some(p) => Seq::new(
            s.len(),
            |i: int|
                detached_node(s, n, p, first_index_of(s[p.index as int].children, n).unwrap(), i),
        ),
    }
}

/// What node `i` is once `child`, which had no parent, has become the child
/// at position `k` of `container`.
pub open spec fn attached_node(s: Forest, container: XmlNode, k: int, child: XmlNode, i: int) -> NodeView {
    let kids = s[container.index as int].children.insert(k, child);
    if i == child.index {
        NodeView {
            parent: Some(container),
            prev_sibling: sibling_before(kids, k),
            next_sibling: sibling_after(kids, k),
            ..s[i]
        }
    } else if i == container.index {
        NodeView { children: kids, ..s[i] }
    } else if sibling_before(kids, k) == Some(node_at(i)) {
        NodeView { next_sibling: Some(child), ..s[i] }
    } else if sibling_after(kids, k) == Some(node_at(i)) {
        NodeView { prev_sibling: Some(child), ..s[i] }
    } else {
        s[i]
    }
}

/// The forest after `child`, which had no parent, has become the child at
/// position `k` of `container`.
pub open spec fn attached(s: Forest, container: XmlNode, k: int, child: XmlNode) -> Forest {
    Seq::new(s.len(), |i: int| attached_node(s, container, k, child, i))
}

/// Where a child that is asked to go to `position` lands: one place earlier
/// if it leaves an earlier place in the same child list, else at `position`.
pub open spec fn landing_position(s: Forest, container: XmlNode, position: int, child: XmlNode) -> int {
    if s[child.index as int].parent == Some(container) && first_index_of(
        s[container.index as int].children,
        child,
    ).unwrap() < position {
        position - 1
    } else {
        position
    }
}

/// The forest after `child` has been inserted at `position` among the
/// children of `container`: unchanged if `child` is `container` or one of its
/// ancestors; otherwise `child` leaves its old place, if it has one, and
/// takes the new one.
pub open spec fn inserted(s: Forest, container: XmlNode, position: int, child: XmlNode) -> Forest {
    if is_ancestor_or_self(s, child, container) {
        s
    } else {
        attached(
            detached(s, child),
            container,
            landing_position(s, container, position, child),
            child,
        )
    }
}

/// In a well-formed forest no node is its own parent, and no two nodes are
/// each other's parent.
pub proof fn lemma_no_short_cycle(s: Forest, a: XmlNode, b: XmlNode)
    requires
        forest_wf(s),
        in_range(s, a),
        s[a.index as int].parent == Some(b),
    ensures
        in_range(s, b),
        a != b,
        s[b.index as int].parent != Some(a),
{
    lemma_ranking(s, a);
    lemma_ranking(s, b);
}

/// In a well-formed forest a child is found at its position and at no other,
/// and a node is a child of its parent only.
pub proof fn lemma_child_position(s: Forest, i: int, k: int)
    requires
        forest_wf(s),
        0 <= i < s.len(),
        0 <= k < s[i].children.len(),
    ensures
        first_index_of(s[i].children, s[i].children[k]) == Some(k),
        in_range(s, s[i].children[k]),
        s[s[i].children[k].index as int].parent == Some(node_at(i)),
        s[i].children[k] != node_at(i),
        node_at(s[i].children[k].index as int) == s[i].children[k],
{
    let kids = s[i].children;
    assert(local_ok(s, i));
    assert(child_ok(s, i, k));
    lemma_first_index_of(kids, kids[k]);
    lemma_no_short_cycle(s, kids[k], node_at(i));
}

/// A node with a parent stands among the children of that parent.
pub proof fn lemma_parent_position(s: Forest, n: XmlNode) -> (k: int)
    requires
        forest_wf(s),
        in_range(s, n),
        s[n.index as int].parent is Some,
    ensures
        in_range(s, s[n.index as int].parent.unwrap()),
        first_index_of(s[s[n.index as int].parent.unwrap().index as int].children, n) == Some(k),
        0 <= k < s[s[n.index as int].parent.unwrap().index as int].children.len(),
        s[s[n.index as int].parent.unwrap().index as int].children[k] == n,
        s[n.index as int].prev_sibling == sibling_before(
            s[s[n.index as int].parent.unwrap().index as int].children,
            k,
        ),
        s[n.index as int].next_sibling == sibling_after(
            s[s[n.index as int].parent.unwrap().index as int].children,
            k,
        ),
{
    let p = s[n.index as int].parent.unwrap();
    assert(local_ok(s, n.index as int));
    assert(node_at(n.index as int) == n);
    let kids = s[p.index as int].children;
    lemma_first_index_of(kids, n);
    let k = first_index_of(kids, n).unwrap();
    assert(child_ok(s, p.index as int, k));
    k
}

/// Taking a node out of its tree keeps the tree invariant.
pub proof fn lemma_detached_wf(s: Forest, n: XmlNode)
    requires
        forest_wf(s),
        in_range(s, n),
    ensures
        forest_wf(detached(s, n)),
        detached(s, n).len() == s.len(),
{
    let t = detached(s, n);
    let me = s[n.index as int];
    if let Some(p) = me.parent {
        let k = lemma_parent_position(s, n);
        let kids = s[p.index as int].children;
        let kids2 = kids.remove(k);
        lemma_no_short_cycle(s, n, p);
        assert(node_at(n.index as int) == n);
        assert(node_at(p.index as int) == p);
        assert(local_ok(s, p.index as int));
        // the neighbours of `n` are children of `p`, distinct from `n` and `p`
        if k > 0 {
            lemma_child_position(s, p.index as int, k - 1);
        }
        if k + 1 < kids.len() {
            lemma_child_position(s, p.index as int, k + 1);
        }
        assert forall|j: int| 0 <= j < kids2.len() implies #[trigger] kids2[j] == kids[if j < k {
            j
        } else {
            j + 1
        }] by {}
        assert(kids2.no_duplicates()) by {
            assert forall|a: int, b: int|
                0 <= a < kids2.len() && 0 <= b < kids2.len() && a != b implies kids2[a]
                != kids2[b] by {
                let a1 = if a < k { a } else { a + 1 };
                let b1 = if b < k { b } else { b + 1 };
                assert(kids2[a] == kids[a1] && kids2[b] == kids[b1]);
            }
        }
        assert forall|i: int| 0 <= i < t.len() implies #[trigger] local_ok(t, i) by {
            assert(local_ok(s, i));
            assert(t[i] == detached_node(s, n, p, k, i));
            if i != n.index {
                if let Some(q) = s[i].parent {
                    assert(t[i].parent == Some(q));
                    lemma_no_short_cycle(s, node_at(i), q);
                    assert(t[q.index as int] == detached_node(s, n, p, k, q.index as int));
                    if q == p {
                        let j = choose|j: int| 0 <= j < kids.len() && kids[j] == node_at(i);
                        let j2 = if j < k { j } else { j - 1 };
                        assert(kids2[j2] == node_at(i));
                    } else if q == n {
                    } else {
                        assert(t[q.index as int].children == s[q.index as int].children);
                    }
                }
            }
        }
        assert forall|i: int, j: int|
            0 <= i < t.len() && 0 <= j < t[i].children.len() implies #[trigger] child_ok(
            t,
            i,
            j,
        ) by {
            assert(t[i] == detached_node(s, n, p, k, i));
            if i == p.index {
                let j1 = if j < k { j } else { j + 1 };
                let c = kids[j1];
                assert(kids2[j] == c);
                lemma_child_position(s, i, j1);
                assert(child_ok(s, i, j1));
                assert(t[c.index as int] == detached_node(s, n, p, k, c.index as int));
                assert(c != n);
                assert(c != p);
                if j1 == k - 1 {
                    assert(me.prev_sibling == Some(c));
                } else if j1 == k + 1 {
                    assert(me.next_sibling == Some(c));
                    if k > 0 {
                        assert(kids[k - 1] != c);
                    }
                } else {
                    if k > 0 {
                        assert(kids[k - 1] != c);
                    }
                    if k + 1 < kids.len() {
                        assert(kids[k + 1] != c);
                    }
                    assert(t[c.index as int] == s[c.index as int]);
                    if j > 0 {
                        assert(kids2[j - 1] == kids[j1 - 1]);
                    }
                    if j + 1 < kids2.len() {
                        assert(kids2[j + 1] == kids[j1 + 1]);
                    }
                }
            } else {
                assert(t[i].children == s[i].children);
                lemma_child_position(s, i, j);
                assert(child_ok(s, i, j));
                let c = s[i].children[j];
                assert(t[c.index as int] == detached_node(s, n, p, k, c.index as int));
                assert(c != n);
                if c == p {
                } else {
                    if k > 0 {
                        assert(kids[k - 1] != c);
                    }
                    if k + 1 < kids.len() {
                        assert(kids[k + 1] != c);
                    }
                    assert(t[c.index as int] == s[c.index as int]);
                }
            }
        }
        let (r, b) = choose|r: Seq<nat>, b: nat| ranked(s, r, b);
        assert forall|i: int| 0 <= i < t.len() implies (#[trigger] t[i].parent matches Some(q)
            ==> q.index < t.len() && r[q.index as int] < r[i]) by {
            assert(t[i] == detached_node(s, n, p, k, i));
            assert(t[i].parent == s[i].parent || t[i].parent is None);
        }
        assert(ranked(t, r, b));
    }
}

/// What taking a node out leaves behind: the node has no parent and no
/// siblings, its former parent has lost exactly that child, every node keeps
/// its own children otherwise, and no node but `n` changes its parent.
pub proof fn lemma_detached_shape(s: Forest, n: XmlNode)
    requires
        forest_wf(s),
        in_range(s, n),
    ensures
        detached(s, n)[n.index as int].parent is None,
        detached(s, n)[n.index as int].prev_sibling is None,
        detached(s, n)[n.index as int].next_sibling is None,
        detached(s, n)[n.index as int].children == s[n.index as int].children,
        forall|i: int|
            0 <= i < s.len() && i != n.index ==> (#[trigger] detached(s, n)[i]).parent
                == s[i].parent,
        forall|i: int|
            0 <= i < s.len() && s[n.index as int].parent != Some(node_at(i)) ==> (#[trigger] detached(
                s,
                n,
            )[i]).children == s[i].children,
        s[n.index as int].parent matches Some(p) ==> detached(s, n)[p.index as int].children
            == s[p.index as int].children.remove(
            first_index_of(s[p.index as int].children, n).unwrap(),
        ),
{
    let t = detached(s, n);
    assert(local_ok(s, n.index as int));
    if let Some(p) = s[n.index as int].parent {
        let k = lemma_parent_position(s, n);
        lemma_no_short_cycle(s, n, p);
        assert(node_at(p.index as int) == p);
        assert forall|i: int| 0 <= i < s.len() && i != n.index implies (#[trigger] t[i]).parent
            == s[i].parent by {
            assert(t[i] == detached_node(s, n, p, k, i));
        }
        assert forall|i: int|
            0 <= i < s.len() && s[n.index as int].parent != Some(node_at(i)) implies (#[trigger] t[i]).children
            == s[i].children by {
            assert(t[i] == detached_node(s, n, p, k, i));
        }
        assert(t[p.index as int] == detached_node(s, n, p, k, p.index as int));
        assert(t[n.index as int] == detached_node(s, n, p, k, n.index as int));
    }
}

/// Taking a node out changes nobody's ancestors but those of the node and of
/// its descendants.
pub proof fn lemma_detached_ancestors(s: Forest, n: XmlNode, a: XmlNode, x: XmlNode)
    requires
        forest_wf(s),
        in_range(s, n),
        in_range(s, x),
        !is_ancestor_or_self(s, n, x),
    ensures
        is_ancestor_or_self(detached(s, n), a, x) == is_ancestor_or_self(s, a, x),
    decreases rank_of(s, x),
{
    let t = detached(s, n);
    lemma_detached_wf(s, n);
    lemma_detached_shape(s, n);
    lemma_ancestors(s, a, x);
    lemma_ancestors(s, n, x);
    lemma_ancestors(t, a, x);
    lemma_ranking(s, x);
    if let Some(p) = s[x.index as int].parent {
        assert(t[x.index as int].parent == Some(p));
        lemma_detached_ancestors(s, n, a, p);
    }
}

/// Putting a parentless node under a node that is neither the node itself
/// nor one of its descendants keeps the tree invariant.
pub proof fn lemma_attached_wf(s: Forest, container: XmlNode, k: int, child: XmlNode)
    requires
        forest_wf(s),
        in_range(s, container),
        in_range(s, child),
        s[child.index as int].parent is None,
        !is_ancestor_or_self(s, child, container),
        0 <= k <= s[container.index as int].children.len(),
    ensures
        forest_wf(attached(s, container, k, child)),
        attached(s, container, k, child).len() == s.len(),
{
    let t = attached(s, container, k, child);
    let old_kids = s[container.index as int].children;
    let kids = old_kids.insert(k, child);
    lemma_ancestors(s, child, container);
    assert(child != container);
    assert(node_at(child.index as int) == child);
    assert(node_at(container.index as int) == container);
    assert(local_ok(s, child.index as int));
    assert(local_ok(s, container.index as int));
    assert forall|j: int| 0 <= j < old_kids.len() implies #[trigger] old_kids[j] != child
        && old_kids[j] != container && in_range(s, old_kids[j]) by {
        lemma_child_position(s, container.index as int, j);
    }
    assert forall|j: int| 0 <= j < kids.len() implies #[trigger] kids[j] == (if j < k {
        old_kids[j]
    } else if j == k {
        child
    } else {
        old_kids[j - 1]
    }) by {}
    assert(kids.no_duplicates()) by {
        assert forall|a: int, b: int|
            0 <= a < kids.len() && 0 <= b < kids.len() && a != b implies kids[a] != kids[b] by {
            let a1 = if a < k { a } else { a - 1 };
            let b1 = if b < k { b } else { b - 1 };
            if a != k && b != k {
                assert(kids[a] == old_kids[a1] && kids[b] == old_kids[b1]);
            } else if a == k {
                assert(kids[b] == old_kids[b1]);
            } else {
                assert(kids[a] == old_kids[a1]);
            }
        }
    }
    if let Some(pc) = s[container.index as int].parent {
        lemma_no_short_cycle(s, container, pc);
        lemma_ancestors(s, child, pc);
    }
    assert forall|i: int| 0 <= i < t.len() implies #[trigger] local_ok(t, i) by {
        assert(local_ok(s, i));
        assert(t[i] == attached_node(s, container, k, child, i));
        if i == child.index {
            assert(kids[k] == child);
            assert(t[container.index as int] == attached_node(
                s,
                container,
                k,
                child,
                container.index as int,
            ));
            if k > 0 {
                assert(kids[k - 1] == old_kids[k - 1]);
            }
            if k + 1 < kids.len() {
                assert(kids[k + 1] == old_kids[k]);
            }
        } else {
            if k > 0 {
                lemma_child_position(s, container.index as int, k - 1);
                assert(kids[k - 1] == old_kids[k - 1]);
            }
            if k < old_kids.len() {
                lemma_child_position(s, container.index as int, k);
                assert(kids[k + 1] == old_kids[k]);
            }
            if let Some(q) = s[i].parent {
                assert(t[i].parent == Some(q));
                lemma_no_short_cycle(s, node_at(i), q);
                assert(t[q.index as int] == attached_node(s, container, k, child, q.index as int));
                if q == container {
                    let j = choose|j: int| 0 <= j < old_kids.len() && old_kids[j] == node_at(i);
                    let j2 = if j < k { j } else { j + 1 };
                    assert(kids[j2] == node_at(i));
                } else {
                    assert(t[q.index as int].children == s[q.index as int].children);
                }
            }
        }
    }
    assert forall|i: int, j: int|
        0 <= i < t.len() && 0 <= j < t[i].children.len() implies #[trigger] child_ok(t, i, j) by {
        assert(t[i] == attached_node(s, container, k, child, i));
        if i == container.index {
            let c = kids[j];
            assert(t[c.index as int] == attached_node(s, container, k, child, c.index as int));
            if j == k {
            } else {
                let j1 = if j < k { j } else { j - 1 };
                assert(c == old_kids[j1]);
                lemma_child_position(s, i, j1);
                assert(child_ok(s, i, j1));
                if j == k - 1 {
                    assert(sibling_before(kids, k) == Some(c));
                    if j > 0 {
                        assert(kids[j - 1] == old_kids[j1 - 1]);
                    }
                } else if j == k + 1 {
                    assert(sibling_after(kids, k) == Some(c));
                    if k > 0 {
                        assert(kids[k - 1] != c);
                    }
                    if j + 1 < kids.len() {
                        assert(kids[j + 1] == old_kids[j1 + 1]);
                    }
                } else {
                    if k > 0 {
                        assert(kids[k - 1] != c);
                    }
                    if k + 1 < kids.len() {
                        assert(kids[k + 1] != c);
                    }
                    assert(t[c.index as int] == s[c.index as int]);
                    if j > 0 {
                        assert(kids[j - 1] == old_kids[j1 - 1]);
                    }
                    if j + 1 < kids.len() {
                        assert(kids[j + 1] == old_kids[j1 + 1]);
                    }
                }
            }
        } else {
            assert(t[i].children == s[i].children);
            lemma_child_position(s, i, j);
            assert(child_ok(s, i, j));
            let c = s[i].children[j];
            assert(t[c.index as int] == attached_node(s, container, k, child, c.index as int));
            assert(c != child);
            if c == container {
            } else {
                if k > 0 {
                    assert(kids[k - 1] == old_kids[k - 1]);
                    lemma_child_position(s, container.index as int, k - 1);
                    assert(kids[k - 1] != c);
                }
                if k + 1 < kids.len() {
                    assert(kids[k + 1] == old_kids[k]);
                    lemma_child_position(s, container.index as int, k);
                    assert(kids[k + 1] != c);
                }
                assert(t[c.index as int] == s[c.index as int]);
            }
        }
    }
    let (r, b) = choose|r: Seq<nat>, b: nat| ranked(s, r, b);
    let lift = r[container.index as int] + 1;
    let r2 = Seq::new(
        s.len(),
        |i: int|
            if is_ancestor_or_self(s, child, node_at(i)) {
                r[i] + lift
            } else {
                r[i]
            },
    );
    let b2 = b + lift;
    assert forall|i: int| 0 <= i < t.len() implies #[trigger] r2[i] < b2 by {
        assert(r[i] < b);
    }
    assert forall|i: int| 0 <= i < t.len() implies (#[trigger] t[i].parent matches Some(q)
        ==> q.index < t.len() && r2[q.index as int] < r2[i]) by {
        assert(t[i] == attached_node(s, container, k, child, i));
        lemma_ancestors(s, child, node_at(i));
        if i == child.index {
            assert(r2[container.index as int] == r[container.index as int]);
        } else if let Some(q) = s[i].parent {
            assert(t[i].parent == Some(q));
            assert(node_at(q.index as int) == q);
        }
    }
    assert(ranked(t, r2, b2));
}

/// The forest after the neighbours `new_prev` and `new_next` have been told
/// that `n` stands between them, and `n` that they are its neighbours.
pub open spec fn adopted(
    s: Forest,
    n: XmlNode,
    new_prev: Option<XmlNode>,
    new_next: Option<XmlNode>,
) -> Forest {
    let s1 = match new_prev {
        Some(p) => s.update(
            p.index as int,
            (NodeView { next_sibling: Some(n), ..s[p.index as int] }),
        ),
        None => s,
    };
    let s2 = match new_next {
        Some(q) => s1.update(
            q.index as int,
            (NodeView { prev_sibling: Some(n), ..s1[q.index as int] }),
        ),
        None => s1,
    };
    s2.update(
        n.index as int,
        (NodeView { prev_sibling: new_prev, next_sibling: new_next, ..s2[n.index as int] }),
    )
}

/// The forest after the neighbours of `n` have been linked to each other and
/// `n` has forgotten them.
pub open spec fn disowned(s: Forest, n: XmlNode) -> Forest {
    let old_prev = s[n.index as int].prev_sibling;
    let old_next = s[n.index as int].next_sibling;
    let s1 = match old_prev {
        Some(p) => s.update(
            p.index as int,
            (NodeView { next_sibling: old_next, ..s[p.index as int] }),
        ),
        None => s,
    };
    let s2 = match old_next {
        Some(q) => s1.update(
            q.index as int,
            (NodeView { prev_sibling: old_prev, ..s1[q.index as int] }),
        ),
        None => s1,
    };
    s2.update(
        n.index as int,
        (NodeView { prev_sibling: None, next_sibling: None, ..s2[n.index as int] }),
    )
}

impl XmlNode {
    /// Takes this node out of its sibling list: its neighbours are linked to
    /// each other, and the node keeps no sibling link.
    pub(crate) fn disown_siblings(self, arena: &mut XmlArena)
        requires
            old(arena).contains(self),
            opt_in_range(old(arena)@, old(arena)@[self.index as int].prev_sibling),
            opt_in_range(old(arena)@, old(arena)@[self.index as int].next_sibling),
        ensures
            final(arena)@ == disowned(old(arena)@, self),
    {
        let old_prev = self.prev_sibling(arena);
        let old_next = self.next_sibling(arena);
        if let Some(prev) = old_prev {
            prev.set_next_sibling(arena, old_next);
        }
        if let Some(next) = old_next {
            next.set_prev_sibling(arena, old_prev);
        }
        self.set_prev_sibling(arena, None);
        self.set_next_sibling(arena, None);
        proof {
            assert(arena@ =~~= disowned(old(arena)@, self));
        }
    }

    /// Clears the parent link of this node.
    pub(crate) fn disown_parent(self, arena: &mut XmlArena)
        requires
            old(arena).contains(self),
        ensures
            final(arena)@ == old(arena)@.update(
                self.index as int,
                (NodeView { parent: None, ..old(arena)@[self.index as int] }),
            ),
    {
        self.set_parent(arena, None);
    }

    /// Puts this node into a sibling list between `new_prev` and `new_next`:
    /// they are linked to the node, and the node to them.
    pub(crate) fn adopt_siblings(
        self,
        arena: &mut XmlArena,
        new_prev: Option<XmlNode>,
        new_next: Option<XmlNode>,
    )
        requires
            old(arena).contains(self),
            opt_in_range(old(arena)@, new_prev),
            opt_in_range(old(arena)@, new_next),
        ensures
            final(arena)@ == adopted(old(arena)@, self, new_prev, new_next),
    {
        if let Some(prev) = new_prev {
            prev.set_next_sibling(arena, Some(self));
        }
        if let Some(next) = new_next {
            next.set_prev_sibling(arena, Some(self));
        }
        self.set_prev_sibling(arena, new_prev);
        self.set_next_sibling(arena, new_next);
        proof {
            assert(arena@ =~~= adopted(old(arena)@, self, new_prev, new_next));
        }
    }

    /// Takes `child` out of the child list of this node, if it is there, and
    /// touches no link.
    pub(crate) fn orphan_child(self, arena: &mut XmlArena, child: XmlNode)
        requires
            old(arena).contains(self),
        ensures
            final(arena)@ == (match first_index_of(old(arena)@[self.index as int].children, child) {
                Some(k) => old(arena)@.update(
                    self.index as int,
                    (NodeView {
                        children: old(arena)@[self.index as int].children.remove(k),
                        ..old(arena)@[self.index as int]
                    }),
                ),
                None => old(arena)@,
            }),
    {
        if let Some(position) = self.child_position(arena, child) {
            proof {
                lemma_first_index_of(arena@[self.index as int].children, child);
            }
            self.unsplice_child(arena, position);
        }
    }

    /// Removes this node from its parent. A node without a parent stays as it
    /// is. Otherwise the node leaves the child list of its parent, its former
    /// neighbours become each other's neighbours, and the node keeps neither
    /// parent nor siblings; its own subtree stays with it.
    pub fn remove_node(self, arena: &mut XmlArena)
        requires
            old(arena).wf(),
            old(arena).contains(self),
        ensures
            final(arena)@ == detached(old(arena)@, self),
            final(arena).wf(),
    {
        proof {
            lemma_detached_wf(arena@, self);
            assert(local_ok(arena@, self.index as int));
        }
        if let Some(parent) = self.parent(arena) {
            proof {
                let k = lemma_parent_position(arena@, self);
                lemma_no_short_cycle(arena@, self, parent);
                let kids = arena@[parent.index as int].children;
                if k > 0 {
                    lemma_child_position(arena@, parent.index as int, k - 1);
                }
                if k + 1 < kids.len() {
                    lemma_child_position(arena@, parent.index as int, k + 1);
                }
            }
            parent.orphan_child(arena, self);
            self.disown_siblings(arena);
            self.disown_parent(arena);
            proof {
                let s = old(arena)@;
                let k = first_index_of(s[parent.index as int].children, self).unwrap();
                assert forall|i: int| 0 <= i < s.len() implies arena@[i] =~~= detached_node(
                    s,
                    self,
                    parent,
                    k,
                    i,
                ) by {}
                assert(arena@ =~~= detached(s, self));
            }
        }
    }

    /// Whether this node is `node` or one of its ancestors.
    pub fn is_ancestor_or_self_of(self, arena: &XmlArena, node: XmlNode) -> (r: bool)
        requires
            arena.wf(),
            arena.contains(node),
        ensures
            r == is_ancestor_or_self(arena@, self, node),
    {
        let mut current = node;
        loop
            invariant
                arena.wf(),
                arena.contains(current),
                is_ancestor_or_self(arena@, self, node) == is_ancestor_or_self(
                    arena@,
                    self,
                    current,
                ),
            decreases rank_of(arena@, current),
        {
            proof {
                lemma_ancestors(arena@, self, current);
                lemma_ranking(arena@, current);
            }
            if current == self {
                return true;
            }
            match current.parent(arena) {
                Some(p) => {
                    current = p;
                },
                None => {
                    return false;
                },
            }
        }
    }

    /// Inserts `child` among the children of this node at `position`, which
    /// counts from 0 and may be the number of children, to append.
    ///
    /// If `child` is this node or one of its ancestors, nothing changes: the
    /// insertion would close a cycle. Otherwise `child` first leaves its old
    /// parent, if it has one, and its old neighbours are linked to each other;
    /// then it becomes a child of this node, between the children that stand
    /// before and after `position`. A child that already belongs to this node
    /// moves: `position` counts in the child list as it was before the call.
    pub fn insert_child(self, arena: &mut XmlArena, position: usize, child: XmlNode)
        requires
            old(arena).wf(),
            old(arena).contains(self),
            old(arena).contains(child),
            position <= old(arena)@[self.index as int].children.len(),
        ensures
            final(arena)@ == inserted(old(arena)@, self, position as int, child),
            is_ancestor_or_self(old(arena)@, child, self) ==> final(arena)@ == old(arena)@,
            final(arena).wf(),
    {
        let is_cyclic = child.is_ancestor_or_self_of(arena, self);
        if is_cyclic {
            return;
        }
        let mut landing = position;
        proof {
            lemma_detached_wf(arena@, child);
            lemma_detached_shape(arena@, child);
            lemma_detached_ancestors(arena@, child, child, self);
            lemma_ancestors(arena@, child, self);
            assert(node_at(self.index as int) == self);
        }
        if let Some(old_parent) = child.parent(arena) {
            proof {
                lemma_parent_position(arena@, child);
            }
            if old_parent == self {
                if let Some(k) = self.child_position(arena, child) {
                    if k < position {
                        landing = position - 1;
                    }
                }
            }
            child.remove_node(arena);
        }
        proof {
            assert(landing == landing_position(old(arena)@, self, position as int, child));
        }
        self.attach_child(arena, landing, child);
    }

    /// Makes `child`, which has no parent, the child at `position` of this
    /// node and links it to its new neighbours.
    fn attach_child(self, arena: &mut XmlArena, position: usize, child: XmlNode)
        requires
            old(arena).wf(),
            old(arena).contains(self),
            old(arena).contains(child),
            old(arena)@[child.index as int].parent is None,
            !is_ancestor_or_self(old(arena)@, child, self),
            position <= old(arena)@[self.index as int].children.len(),
        ensures
            final(arena)@ == attached(old(arena)@, self, position as int, child),
            final(arena).wf(),
    {
        let ghost d = arena@;
        proof {
            lemma_attached_wf(d, self, position as int, child);
            lemma_ancestors(d, child, self);
            let kids = d[self.index as int].children;
            if position > 0 {
                lemma_child_position(d, self.index as int, position - 1);
            }
            if position < kids.len() {
                lemma_child_position(d, self.index as int, position as int);
            }
        }
        child.set_parent(arena, Some(self));
        self.splice_child(arena, position, child);
        let count = self.children_len(arena);
        let new_prev = if position > 0 {
            self.get_child_by_index(arena, position - 1)
        } else {
            None
        };
        let new_next = if position + 1 < count {
            self.get_child_by_index(arena, position + 1)
        } else {
            None
        };
        child.adopt_siblings(arena, new_prev, new_next);
        proof {
            let kids = d[self.index as int].children.insert(position as int, child);
            assert(new_prev == sibling_before(kids, position as int));
            assert(new_next == sibling_after(kids, position as int));
            assert forall|i: int| 0 <= i < d.len() implies arena@[i] =~~= attached_node(
                d,
                self,
                position as int,
                child,
                i,
            ) by {}
            assert(arena@ =~~= attached(d, self, position as int, child));
        }
    }

    /// Appends `child` to the children of this node: `insert_child` at the
    /// position after the last child.
    pub fn append_child(self, arena: &mut XmlArena, child: XmlNode)
        requires
            old(arena).wf(),
            old(arena).contains(self),
            old(arena).contains(child),
        ensures
            final(arena)@ == inserted(
                old(arena)@,
                self,
                old(arena)@[self.index as int].children.len() as int,
                child,
            ),
            final(arena).wf(),
    {
        let position = self.children_len(arena);
        self.insert_child(arena, position, child);
    }
}

} // verus!
