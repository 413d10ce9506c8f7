//! The bridge to the host's objects: a node is bound to at most one
//! script-visible object, and its attributes to at most one, each made on
//! first demand and kept from then on; and the exchange of what two nodes
//! hold.

use vstd::prelude::*;
use crate::tree::{
    content_ok, forest_wf, in_range, lemma_same_links, local_ok, swapped, unlinked, Forest,
    NodeView, ScriptObject, XmlArena, XmlNode,
};

verus! {

/// Exchanging what two nodes hold keeps the tree invariant if neither of them
/// has a parent, a sibling or a child: then no link anywhere names either.
pub proof fn lemma_swapped_wf(s: Forest, a: XmlNode, b: XmlNode)
    requires
        forest_wf(s),
        in_range(s, a),
        in_range(s, b),
        unlinked(s[a.index as int]),
        unlinked(s[b.index as int]),
    ensures
        forest_wf(swapped(s, a, b)),
{
    let t = swapped(s, a, b);
    assert forall|i: int| 0 <= i < s.len() implies content_ok(#[trigger] t[i]) by {
        assert(local_ok(s, i));
        assert(local_ok(s, a.index as int));
        assert(local_ok(s, b.index as int));
    }
    assert(s[a.index as int].children =~= s[b.index as int].children);
    lemma_same_links(s, t);
}

impl XmlNode {
    /// Binds `new_object` to this node. A node is bound once: it must not
    /// have an object yet.
    pub fn introduce_script_object(self, arena: &mut XmlArena, new_object: ScriptObject)
        requires
            old(arena).contains(self),
            old(arena)@[self.index as int].script_object is None,
        ensures
            final(arena)@ == old(arena)@.update(
                self.index as int,
                (NodeView { script_object: Some(new_object), ..old(arena)@[self.index as int] }),
            ),
            old(arena).wf() ==> final(arena).wf(),
    {
        self.set_script_object(arena, Some(new_object));
        proof {
            if old(arena).wf() {
                assert forall|i: int| 0 <= i < arena@.len() implies content_ok(
                    #[trigger] arena@[i],
                ) by {
                    assert(local_ok(old(arena)@, i));
                }
                lemma_same_links(old(arena)@, arena@);
            }
        }
    }

    /// The object of this node: the one that is bound to it, or else one
    /// that `make_object` makes for it now and that is bound to it from now
    /// on. `make_object` is not called for a node that has its object.
    pub fn script_object<F: FnOnce(XmlNode) -> ScriptObject>(
        self,
        arena: &mut XmlArena,
        make_object: F,
    ) -> (r: ScriptObject)
        requires
            old(arena).contains(self),
            old(arena)@[self.index as int].script_object is None ==> make_object.requires((self,)),
        ensures
            match old(arena)@[self.index as int].script_object {
                Some(bound) => r == bound && final(arena)@ == old(arena)@,
                None => make_object.ensures((self,), r) && final(arena)@ == old(arena)@.update(
                    self.index as int,
                    (NodeView { script_object: Some(r), ..old(arena)@[self.index as int] }),
                ),
            },
            old(arena).wf() ==> final(arena).wf(),
    {
        match self.get_script_object(arena) {
            Some(object) => object,
            None => {
                let object = make_object(self);
                self.introduce_script_object(arena, object);
                object
            },
        }
    }

    /// The object of the attributes of this node: the one that is bound, or
    /// else one that `make_object` makes now and that is bound from now on.
    pub fn attribute_script_object<F: FnOnce(XmlNode) -> ScriptObject>(
        self,
        arena: &mut XmlArena,
        make_object: F,
    ) -> (r: ScriptObject)
        requires
            old(arena).contains(self),
            old(arena)@[self.index as int].attributes_script_object is None
                ==> make_object.requires((self,)),
        ensures
            match old(arena)@[self.index as int].attributes_script_object {
                Some(bound) => r == bound && final(arena)@ == old(arena)@,
                None => make_object.ensures((self,), r) && final(arena)@ == old(arena)@.update(
                    self.index as int,
                    (NodeView {
                        attributes_script_object: Some(r),
                        ..old(arena)@[self.index as int]
                    }),
                ),
            },
            old(arena).wf() ==> final(arena).wf(),
    {
        match self.get_attributes_script_object(arena) {
            Some(object) => object,
            None => {
                let object = make_object(self);
                self.set_attributes_script_object(arena, Some(object));
                proof {
                    if old(arena).wf() {
                        assert forall|i: int| 0 <= i < arena@.len() implies content_ok(
                            #[trigger] arena@[i],
                        ) by {
                            assert(local_ok(old(arena)@, i));
                        }
                        lemma_same_links(old(arena)@, arena@);
                    }
                }
                object
            },
        }
    }

    /// Exchanges everything that this node and `other` hold: kind, value,
    /// attributes, children, parent and sibling links and bound objects.
    /// Nothing happens if both are the same node.
    ///
    /// Handles held elsewhere are not redirected: a link that named one of the
    /// two nodes names the same node afterwards, which now holds what the
    /// other held. The tree invariant is therefore kept only where no link
    /// names either node.
    pub fn swap(self, arena: &mut XmlArena, other: XmlNode)
        requires
            old(arena).contains(self),
            old(arena).contains(other),
        ensures
            final(arena)@ == if self == other {
                old(arena)@
            } else {
                swapped(old(arena)@, self, other)
            },
            old(arena).wf() && unlinked(old(arena)@[self.index as int]) && unlinked(
                old(arena)@[other.index as int],
            ) ==> final(arena).wf(),
    {
        if self != other {
            arena.exchange(self, other);
            proof {
                if old(arena).wf() && unlinked(old(arena)@[self.index as int]) && unlinked(
                    old(arena)@[other.index as int],
                ) {
                    lemma_swapped_wf(old(arena)@, self, other);
                }
            }
        }
    }
}

} // verus!
