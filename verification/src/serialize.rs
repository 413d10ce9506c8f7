//! Serialization: the text of a node and of everything below it.

use vstd::prelude::*;
use crate::attributes::Entries;
use crate::bytes::append_bytes;
use crate::escape::{escape_markup, escaped, GREATER_THAN, LESS_THAN, QUOTE};
use crate::mutation::lemma_child_position;
use crate::tree::{
    forest_wf, height_of, in_range, lemma_ranking, local_ok, Forest, XmlArena, XmlNode,
    ELEMENT_NODE,
};

verus! {

/// A space.
pub const SPACE: u8 = 0x20;

/// `=`
pub const EQUALS: u8 = 0x3d;

/// `/`
pub const SLASH: u8 = 0x2f;

/// The text of one attribute: a space, the name, `="`, the escaped value and
/// `"`.
pub open spec fn serialized_attribute(key: Seq<u8>, value: Seq<u8>) -> Seq<u8> {
    seq![SPACE] + key + seq![EQUALS, QUOTE] + escaped(value) + seq![QUOTE]
}

/// The text of the attributes of a node, in the order of the table.
pub open spec fn serialized_attributes(entries: Entries) -> Seq<u8>
    decreases entries.len(),
{
    if entries.len() == 0 {
        Seq::empty()
    } else {
        serialized_attributes(entries.drop_last()) + serialized_attribute(
            entries.last().0,
            entries.last().1,
        )
    }
}

/// The text of node `n` and of its subtree.
///
/// An element with a tag name is `<`, the name and the attributes, followed
/// by ` />` if it has no children, else by `>`, the text of the children in
/// order, `</`, the name and `>`. An element without a tag name, a document
/// root, is the text of its children. A text node is its escaped content.
pub open spec fn serialized(s: Forest, n: XmlNode) -> Seq<u8>
    decreases height_of(s, n), s[n.index as int].children.len() + 1,
    when forest_wf(s) && in_range(s, n)
{
    let node = s[n.index as int];
    if node.node_type == ELEMENT_NODE {
        match node.node_value {
            Some(tag) => {
                let open = seq![LESS_THAN] + tag + serialized_attributes(node.attributes);
                if node.children.len() == 0 {
                    open + seq![SPACE, SLASH, GREATER_THAN]
                } else {
                    open + seq![GREATER_THAN] + serialized_children(s, n, node.children.len())
                        + seq![LESS_THAN, SLASH] + tag + seq![GREATER_THAN]
                }
            },
            None => serialized_children(s, n, node.children.len()),
        }
    } else {
        escaped(node.node_value.unwrap())
    }
}

/// The text of the first `count` children of node `n`.
pub open spec fn serialized_children(s: Forest, n: XmlNode, count: nat) -> Seq<u8>
    decreases height_of(s, n), count,
    when forest_wf(s) && in_range(s, n) && count <= s[n.index as int].children.len()
    via serialized_children_decreases
{
    if count == 0 {
        Seq::empty()
    } else {
        serialized_children(s, n, (count - 1) as nat) + serialized(
            s,
            s[n.index as int].children[count - 1],
        )
    }
}

#[via_fn]
proof fn serialized_children_decreases(s: Forest, n: XmlNode, count: nat) {
    if count != 0 {
        lemma_child_position(s, n.index as int, count - 1);
        lemma_ranking(s, s[n.index as int].children[count - 1]);
    }
}

impl XmlNode {
    /// The text of this node and of its subtree.
    pub fn into_string(self, arena: &XmlArena) -> (r: Vec<u8>)
        requires
            arena.wf(),
            arena.contains(self),
        ensures
            r@ == serialized(arena@, self),
    {
        let mut result: Vec<u8> = Vec::new();
        self.write_node_to_string(arena, &mut result);
        proof {
            assert(Seq::<u8>::empty() + serialized(arena@, self) =~= serialized(arena@, self));
        }
        result
    }

    /// Appends the text of this node and of its subtree to `result`.
    pub fn write_node_to_string(self, arena: &XmlArena, result: &mut Vec<u8>)
        requires
            arena.wf(),
            arena.contains(self),
        ensures
            final(result)@ == old(result)@ + serialized(arena@, self),
        decreases height_of(arena@, self),
    {
        let ghost base = result@;
        let ghost s = arena@;
        let data = arena.data(self);
        let children = data.children();
        if data.node_type() == ELEMENT_NODE {
            match data.value() {
                Some(tag_name) => {
                    result.push(LESS_THAN);
                    append_bytes(result, tag_name.as_slice());
                    let attributes = data.attributes();
                    let ghost entries = attributes@;
                    let ghost head = base + seq![LESS_THAN] + tag_name@;
                    proof {
                        assert(result@ =~= head + serialized_attributes(entries.take(0)));
                    }
                    let mut i: usize = 0;
                    while i < attributes.len()
                        invariant
                            i <= entries.len(),
                            entries == attributes@,
                            result@ == head + serialized_attributes(entries.take(i as int)),
                        decreases entries.len() - i,
                    {
                        let ghost before = result@;
                        result.push(SPACE);
                        append_bytes(result, attributes.key_at(i).as_slice());
                        result.push(EQUALS);
                        result.push(QUOTE);
                        let escaped_value = escape_markup(attributes.value_at(i).as_slice());
                        append_bytes(result, escaped_value.as_slice());
                        result.push(QUOTE);
                        proof {
                            let next = entries.take(i + 1);
                            assert(next.drop_last() =~= entries.take(i as int));
                            assert(next.last() == entries[i as int]);
                            assert(result@ =~= before + serialized_attribute(
                                entries[i as int].0,
                                entries[i as int].1,
                            ));
                            assert(result@ =~= head + serialized_attributes(next));
                        }
                        i += 1;
                    }
                    proof {
                        assert(entries.take(entries.len() as int) =~= entries);
                    }
                    let ghost open = head + serialized_attributes(entries);
                    if children.len() == 0 {
                        result.push(SPACE);
                        result.push(SLASH);
                        result.push(GREATER_THAN);
                        proof {
                            assert(result@ =~= base + (seq![LESS_THAN] + tag_name@
                                + serialized_attributes(entries) + seq![
                                SPACE,
                                SLASH,
                                GREATER_THAN,
                            ]));
                        }
                    } else {
                        result.push(GREATER_THAN);
                        let ghost inner = open + seq![GREATER_THAN];
                        proof {
                            assert(result@ =~= inner + serialized_children(s, self, 0));
                        }
                        let mut k: usize = 0;
                        while k < children.len()
                            invariant
                                k <= children@.len(),
                                arena.wf(),
                                arena.contains(self),
                                s == arena@,
                                children@ == s[self.index as int].children,
                                result@ == inner + serialized_children(s, self, k as nat),
                            decreases children@.len() - k,
                        {
                            let child = children[k];
                            proof {
                                lemma_child_position(s, self.index as int, k as int);
                                lemma_ranking(s, child);
                            }
                            child.write_node_to_string(arena, result);
                            proof {
                                assert(result@ =~= inner + serialized_children(
                                    s,
                                    self,
                                    (k + 1) as nat,
                                ));
                            }
                            k += 1;
                        }
                        result.push(LESS_THAN);
                        result.push(SLASH);
                        append_bytes(result, tag_name.as_slice());
                        result.push(GREATER_THAN);
                        proof {
                            assert(result@ =~= base + (seq![LESS_THAN] + tag_name@
                                + serialized_attributes(entries) + seq![GREATER_THAN]
                                + serialized_children(s, self, children@.len()) + seq![
                                LESS_THAN,
                                SLASH,
                            ] + tag_name@ + seq![GREATER_THAN]));
                        }
                    }
                },
                None => {
                    proof {
                        assert(result@ =~= base + serialized_children(s, self, 0));
                    }
                    let mut k: usize = 0;
                    while k < children.len()
                        invariant
                            k <= children@.len(),
                            arena.wf(),
                            arena.contains(self),
                            s == arena@,
                            children@ == s[self.index as int].children,
                            result@ == base + serialized_children(s, self, k as nat),
                        decreases children@.len() - k,
                    {
                        let child = children[k];
                        proof {
                            lemma_child_position(s, self.index as int, k as int);
                            lemma_ranking(s, child);
                        }
                        child.write_node_to_string(arena, result);
                        proof {
                            assert(result@ =~= base + serialized_children(s, self, (k + 1) as nat));
                        }
                        k += 1;
                    }
                },
            }
        } else {
            proof {
                assert(local_ok(s, self.index as int));
            }
            match data.value() {
                Some(value) => {
                    let escaped_value = escape_markup(value.as_slice());
                    append_bytes(result, escaped_value.as_slice());
                },
                None => {},
            }
        }
    }
}

} // verus!
