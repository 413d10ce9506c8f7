//! Duplication: a copy of a node, or of a whole subtree, made of new nodes.

use vstd::prelude::*;
use crate::mutation::{attached, attached_node, detached, inserted, lemma_child_position};
use crate::tree::{
    forest_wf, height_of, in_range, lemma_ancestors, lemma_ranking, Forest, NodeView, XmlArena,
    XmlNode,
};

verus! {

/// `t` holds every node of `s`, unchanged, and possibly more nodes after
/// them.
pub open spec fn extends(t: Forest, s: Forest) -> bool {
    s.len() <= t.len() && forall|i: int| 0 <= i < s.len() ==> #[trigger] t[i] == s[i]
}

/// Two nodes agree in everything but their parent and sibling links.
pub open spec fn same_payload(a: NodeView, b: NodeView) -> bool {
    &&& a.node_type == b.node_type
    &&& a.node_value == b.node_value
    &&& a.attributes == b.attributes
    &&& a.script_object == b.script_object
    &&& a.attributes_script_object == b.attributes_script_object
    &&& a.children == b.children
}

/// Node `d` of `dst` is a copy of node `n` of `src`: it has the kind, the
/// value and the attributes of `n` and no bound objects. A deep copy has as
/// many children as `n`, each a deep copy of the child of `n` at the same
/// position; a shallow copy has none. Every node of the copy has an index of
/// at least `lo`.
pub open spec fn mirrors(
    dst: Forest,
    d: XmlNode,
    src: Forest,
    n: XmlNode,
    deep: bool,
    lo: int,
) -> bool
    decreases height_of(src, n), src[n.index as int].children.len() + 1,
    when forest_wf(src) && in_range(src, n)
{
    let a = dst[d.index as int];
    let b = src[n.index as int];
    &&& lo <= d.index < dst.len()
    &&& a.node_type == b.node_type
    &&& a.node_value == b.node_value
    &&& a.attributes == b.attributes
    &&& a.script_object is None
    &&& a.attributes_script_object is None
    &&& if deep {
        a.children.len() == b.children.len() && children_mirror(
            dst,
            d,
            src,
            n,
            lo,
            b.children.len(),
        )
    } else {
        a.children.len() == 0
    }
}

/// Each of the first `count` children of node `d` of `dst` is a deep copy of
/// the child of node `n` of `src` at the same position.
pub open spec fn children_mirror(
    dst: Forest,
    d: XmlNode,
    src: Forest,
    n: XmlNode,
    lo: int,
    count: nat,
) -> bool
    decreases height_of(src, n), count,
    when forest_wf(src) && in_range(src, n) && count <= src[n.index as int].children.len()
    via children_mirror_decreases
{
    if count == 0 {
        true
    } else {
        children_mirror(dst, d, src, n, lo, (count - 1) as nat) && mirrors(
            dst,
            dst[d.index as int].children[count - 1],
            src,
            src[n.index as int].children[count - 1],
            true,
            lo,
        )
    }
}

#[via_fn]
proof fn children_mirror_decreases(
    dst: Forest,
    d: XmlNode,
    src: Forest,
    n: XmlNode,
    lo: int,
    count: nat,
) {
    if count != 0 {
        lemma_child_position(src, n.index as int, count - 1);
        lemma_ranking(src, src[n.index as int].children[count - 1]);
    }
}

/// In a deep copy the child at each position is a deep copy of the child of
/// the source at that position.
pub proof fn lemma_mirrored_child(
    dst: Forest,
    d: XmlNode,
    src: Forest,
    n: XmlNode,
    lo: int,
    count: nat,
    k: int,
)
    requires
        forest_wf(src),
        in_range(src, n),
        count <= src[n.index as int].children.len(),
        children_mirror(dst, d, src, n, lo, count),
        0 <= k < count,
    ensures
        mirrors(
            dst,
            dst[d.index as int].children[k],
            src,
            src[n.index as int].children[k],
            true,
            lo,
        ),
    decreases count,
{
    lemma_child_position(src, n.index as int, k);
    if k < count - 1 {
        lemma_mirrored_child(dst, d, src, n, lo, (count - 1) as nat, k);
    }
}

/// A copy stays a copy when the forest around it changes, as long as the
/// nodes from index `lo` on keep everything but their parent and sibling
/// links; and it is a copy for every smaller bound too.
pub proof fn lemma_mirrors_frame(
    dst: Forest,
    dst2: Forest,
    d: XmlNode,
    src: Forest,
    n: XmlNode,
    deep: bool,
    lo: int,
    lo2: int,
)
    requires
        forest_wf(src),
        in_range(src, n),
        mirrors(dst, d, src, n, deep, lo),
        lo2 <= lo,
        dst.len() <= dst2.len(),
        forall|i: int| lo <= i < dst.len() ==> same_payload(#[trigger] dst[i], dst2[i]),
    ensures
        mirrors(dst2, d, src, n, deep, lo2),
    decreases height_of(src, n), src[n.index as int].children.len() + 1,
{
    assert(same_payload(dst[d.index as int], dst2[d.index as int]));
    if deep {
        lemma_children_mirror_frame(
            dst,
            dst2,
            d,
            src,
            n,
            lo,
            lo2,
            src[n.index as int].children.len(),
        );
    }
}

/// The first `count` children of a node stay copies when the forest around
/// them changes, as long as the node keeps those children and the nodes from
/// index `lo` on keep everything but their parent and sibling links.
pub proof fn lemma_children_mirror_frame(
    dst: Forest,
    dst2: Forest,
    d: XmlNode,
    src: Forest,
    n: XmlNode,
    lo: int,
    lo2: int,
    count: nat,
)
    requires
        forest_wf(src),
        in_range(src, n),
        count <= src[n.index as int].children.len(),
        children_mirror(dst, d, src, n, lo, count),
        forall|j: int|
            0 <= j < count ==> #[trigger] dst2[d.index as int].children[j]
                == dst[d.index as int].children[j],
        lo2 <= lo,
        dst.len() <= dst2.len(),
        forall|i: int| lo <= i < dst.len() ==> same_payload(#[trigger] dst[i], dst2[i]),
    ensures
        children_mirror(dst2, d, src, n, lo2, count),
    decreases height_of(src, n), count,
{
    if count != 0 {
        lemma_children_mirror_frame(dst, dst2, d, src, n, lo, lo2, (count - 1) as nat);
        let target = src[n.index as int].children[count - 1];
        lemma_child_position(src, n.index as int, count - 1);
        lemma_ranking(src, target);
        assert(dst2[d.index as int].children[count - 1] == dst[d.index as int].children[count
            - 1]);
        lemma_mirrors_frame(
            dst,
            dst2,
            dst[d.index as int].children[count - 1],
            src,
            target,
            true,
            lo,
            lo2,
        );
    }
}

impl XmlNode {
    /// Makes a copy of this node and hands out its handle. The copy is a new
    /// node with the kind, the value and a copy of the attributes of this
    /// node; it has no parent, no siblings and no bound objects. A shallow
    /// copy has no children. A deep copy has a deep copy of each child of
    /// this node, in the same order. Every node of the copy is new: no node
    /// that was there before the call is changed.
    pub fn duplicate(self, arena: &mut XmlArena, deep: bool) -> (r: XmlNode)
        requires
            old(arena).wf(),
            old(arena).contains(self),
        ensures
            final(arena).wf(),
            extends(final(arena)@, old(arena)@),
            r.index == old(arena)@.len(),
            final(arena)@[r.index as int].parent is None,
            final(arena)@[r.index as int].prev_sibling is None,
            final(arena)@[r.index as int].next_sibling is None,
            mirrors(final(arena)@, r, old(arena)@, self, deep, old(arena)@.len() as int),
    {
        let ghost src = arena@;
        self.duplicate_from(arena, deep, Ghost(src))
    }

    /// Makes a copy of this node as it is in `src`, a forest that the arena
    /// has held and still extends.
    fn duplicate_from(self, arena: &mut XmlArena, deep: bool, src: Ghost<Forest>) -> (r: XmlNode)
        requires
            forest_wf(src@),
            in_range(src@, self),
            old(arena).wf(),
            extends(old(arena)@, src@),
        ensures
            final(arena).wf(),
            extends(final(arena)@, old(arena)@),
            r.index == old(arena)@.len(),
            final(arena)@[r.index as int].parent is None,
            final(arena)@[r.index as int].prev_sibling is None,
            final(arena)@[r.index as int].next_sibling is None,
            mirrors(final(arena)@, r, src@, self, deep, old(arena)@.len() as int),
        decreases height_of(src@, self),
    {
        let ghost before = arena@;
        let ghost lo: int = before.len() as int + 1;
        let clone = arena.allocate_like(self);
        if deep {
            let count = self.children_len(arena);
            let mut position: usize = 0;
            while position < count
                invariant
                    forest_wf(src@),
                    in_range(src@, self),
                    arena.wf(),
                    extends(arena@, before),
                    extends(before, src@),
                    lo == before.len() + 1,
                    clone.index == before.len(),
                    clone.index < arena@.len(),
                    count == src@[self.index as int].children.len(),
                    position <= count,
                    deep,
                    arena@[clone.index as int].node_type == src@[self.index as int].node_type,
                    arena@[clone.index as int].node_value == src@[self.index as int].node_value,
                    arena@[clone.index as int].attributes == src@[self.index as int].attributes,
                    arena@[clone.index as int].script_object is None,
                    arena@[clone.index as int].attributes_script_object is None,
                    arena@[clone.index as int].parent is None,
                    arena@[clone.index as int].prev_sibling is None,
                    arena@[clone.index as int].next_sibling is None,
                    arena@[clone.index as int].children.len() == position,
                    children_mirror(arena@, clone, src@, self, lo, position as nat),
                decreases count - position,
            {
                let ghost mid = arena@;
                if let Some(child) = self.get_child_by_index(arena, position) {
                    proof {
                        lemma_child_position(src@, self.index as int, position as int);
                        lemma_ranking(src@, child);
                    }
                    let copy = child.duplicate_from(arena, deep, src);
                    let ghost mid2 = arena@;
                    proof {
                        lemma_ancestors(mid2, copy, clone);
                        assert(inserted(mid2, clone, position as int, copy) == attached(
                            detached(mid2, copy),
                            clone,
                            position as int,
                            copy,
                        ));
                        assert(detached(mid2, copy) == mid2);
                    }
                    clone.insert_child(arena, position, copy);
                    proof {
                        let kids = mid2[clone.index as int].children;
                        let kids2 = kids.insert(position as int, copy);
                        assert(mid2[clone.index as int] == mid[clone.index as int]);
                        if position > 0 {
                            lemma_mirrored_child(
                                mid,
                                clone,
                                src@,
                                self,
                                lo,
                                position as nat,
                                position - 1,
                            );
                            lemma_child_position(src@, self.index as int, position - 1);
                            assert(kids2[position - 1] == kids[position - 1]);
                        }
                        assert forall|i: int| 0 <= i < mid2.len() implies arena@[i]
                            == attached_node(mid2, clone, position as int, copy, i) by {}
                        assert forall|i: int| 0 <= i < before.len() implies #[trigger] arena@[i]
                            == before[i] by {
                            assert(mid2[i] == mid[i]);
                        }
                        assert forall|i: int| lo <= i < mid.len() implies same_payload(
                            #[trigger] mid[i],
                            arena@[i],
                        ) by {
                            assert(mid2[i] == mid[i]);
                        }
                        assert forall|i: int| lo <= i < mid2.len() implies same_payload(
                            #[trigger] mid2[i],
                            arena@[i],
                        ) by {}
                        assert(arena@[clone.index as int].children == kids2);
                        assert forall|j: int| 0 <= j < position implies #[trigger] arena@[clone.index as int].children[j]
                            == mid[clone.index as int].children[j] by {
                            assert(kids2[j] == kids[j]);
                        }
                        lemma_children_mirror_frame(
                            mid,
                            arena@,
                            clone,
                            src@,
                            self,
                            lo,
                            lo,
                            position as nat,
                        );
                        assert(kids2[position as int] == copy);
                        lemma_mirrors_frame(
                            mid2,
                            arena@,
                            copy,
                            src@,
                            child,
                            deep,
                            mid.len() as int,
                            lo,
                        );
                    }
                }
                position += 1;
            }
        }
        proof {
            if deep {
                lemma_children_mirror_frame(
                    arena@,
                    arena@,
                    clone,
                    src@,
                    self,
                    lo,
                    before.len() as int,
                    src@[self.index as int].children.len(),
                );
            }
        }
        clone
    }
}

} // verus!
