use xml_tree::tree::{XmlArena, XmlNode, ELEMENT_NODE, TEXT_NODE};

fn element(arena: &mut XmlArena, name: &str) -> XmlNode {
    XmlNode::new_element(arena, name.as_bytes().to_vec())
}

fn text(arena: &mut XmlArena, content: &str) -> XmlNode {
    XmlNode::new_text(arena, content.as_bytes().to_vec())
}

/// Checks by hand what the tree invariant says of one parent: every child
/// names it as parent, and the sibling links follow the child list.
fn assert_chain(arena: &XmlArena, parent: XmlNode) {
    let children = parent.children(arena);
    for (i, child) in children.iter().enumerate() {
        assert_eq!(child.parent(arena), Some(parent));
        assert!(parent.has_child(arena, *child));
        assert_eq!(parent.child_position(arena, *child), Some(i));
        let before = if i > 0 { Some(children[i - 1]) } else { None };
        let after = children.get(i + 1).copied();
        assert_eq!(child.prev_sibling(arena), before);
        assert_eq!(child.next_sibling(arena), after);
    }
}

#[test]
fn node_kind_numbers_follow_the_dom() {
    assert_eq!(ELEMENT_NODE, 1);
    assert_eq!(TEXT_NODE, 3);
}

#[test]
fn fresh_nodes_have_no_links() {
    let mut arena = XmlArena::new();
    let t = text(&mut arena, "hello");
    let e = element(&mut arena, "a");
    let root = XmlNode::new_document_root(&mut arena);
    assert_eq!(arena.len(), 3);
    for node in [t, e, root] {
        assert!(arena.has_node(node));
        assert_eq!(node.parent(&arena), None);
        assert_eq!(node.prev_sibling(&arena), None);
        assert_eq!(node.next_sibling(&arena), None);
        assert_eq!(node.children_len(&arena), 0);
        assert!(node.attribute_keys(&arena).is_empty());
        assert_eq!(node.get_script_object(&arena), None);
        assert_eq!(node.get_attributes_script_object(&arena), None);
    }
    assert_eq!(t.node_type(&arena), TEXT_NODE);
    assert_eq!(e.node_type(&arena), ELEMENT_NODE);
    assert_eq!(root.node_type(&arena), ELEMENT_NODE);
    assert_eq!(t.node_value(&arena), Some(b"hello".to_vec()));
    assert_eq!(t.node_name(&arena), None);
    assert_eq!(e.node_name(&arena), Some(b"a".to_vec()));
    assert_eq!(e.node_value(&arena), None);
    assert_eq!(root.node_name(&arena), None);
    assert_eq!(root.node_value(&arena), None);
    assert!(!arena.has_node(XmlNode { index: 3 }));
}

#[test]
fn set_node_value_replaces_the_value() {
    let mut arena = XmlArena::new();
    let t = text(&mut arena, "old");
    let e = element(&mut arena, "a");
    t.set_node_value(&mut arena, b"new".to_vec());
    e.set_node_value(&mut arena, b"b".to_vec());
    assert_eq!(t.node_value(&arena), Some(b"new".to_vec()));
    assert_eq!(e.node_name(&arena), Some(b"b".to_vec()));
}

#[test]
fn insert_child_links_neighbours() {
    let mut arena = XmlArena::new();
    let p = element(&mut arena, "p");
    let c0 = element(&mut arena, "c0");
    let c1 = element(&mut arena, "c1");
    let c2 = element(&mut arena, "c2");
    p.insert_child(&mut arena, 0, c2);
    p.insert_child(&mut arena, 0, c0);
    p.insert_child(&mut arena, 1, c1);
    assert_eq!(p.children(&arena), vec![c0, c1, c2]);
    assert_eq!(p.children_len(&arena), 3);
    assert_eq!(p.get_child_by_index(&arena, 1), Some(c1));
    assert_eq!(p.get_child_by_index(&arena, 3), None);
    assert_eq!(c0.prev_sibling(&arena), None);
    assert_eq!(c0.next_sibling(&arena), Some(c1));
    assert_eq!(c1.prev_sibling(&arena), Some(c0));
    assert_eq!(c1.next_sibling(&arena), Some(c2));
    assert_eq!(c2.prev_sibling(&arena), Some(c1));
    assert_eq!(c2.next_sibling(&arena), None);
    assert_chain(&arena, p);
}

#[test]
fn append_child_adds_at_the_end() {
    let mut arena = XmlArena::new();
    let p = element(&mut arena, "p");
    let a = element(&mut arena, "a");
    let b = text(&mut arena, "b");
    p.append_child(&mut arena, a);
    p.append_child(&mut arena, b);
    assert_eq!(p.children(&arena), vec![a, b]);
    assert_chain(&arena, p);
}

#[test]
fn remove_node_relinks_the_neighbours() {
    let mut arena = XmlArena::new();
    let p = element(&mut arena, "p");
    let c0 = element(&mut arena, "c0");
    let c1 = element(&mut arena, "c1");
    let c2 = element(&mut arena, "c2");
    p.append_child(&mut arena, c0);
    p.append_child(&mut arena, c1);
    p.append_child(&mut arena, c2);
    c1.remove_node(&mut arena);
    assert_eq!(p.children(&arena), vec![c0, c2]);
    assert_eq!(c0.next_sibling(&arena), Some(c2));
    assert_eq!(c2.prev_sibling(&arena), Some(c0));
    assert_eq!(c1.parent(&arena), None);
    assert_eq!(c1.prev_sibling(&arena), None);
    assert_eq!(c1.next_sibling(&arena), None);
    assert!(!p.has_child(&arena, c1));
    assert_eq!(p.child_position(&arena, c1), None);
    assert_chain(&arena, p);
}

#[test]
fn remove_node_at_the_ends() {
    let mut arena = XmlArena::new();
    let p = element(&mut arena, "p");
    let c0 = element(&mut arena, "c0");
    let c1 = element(&mut arena, "c1");
    let c2 = element(&mut arena, "c2");
    p.append_child(&mut arena, c0);
    p.append_child(&mut arena, c1);
    p.append_child(&mut arena, c2);
    c0.remove_node(&mut arena);
    assert_eq!(p.children(&arena), vec![c1, c2]);
    assert_eq!(c1.prev_sibling(&arena), None);
    c2.remove_node(&mut arena);
    assert_eq!(p.children(&arena), vec![c1]);
    assert_eq!(c1.next_sibling(&arena), None);
    c1.remove_node(&mut arena);
    assert_eq!(p.children_len(&arena), 0);
    assert_chain(&arena, p);
}

#[test]
fn remove_node_without_parent_changes_nothing() {
    let mut arena = XmlArena::new();
    let p = element(&mut arena, "p");
    let c = element(&mut arena, "c");
    p.append_child(&mut arena, c);
    p.remove_node(&mut arena);
    assert_eq!(p.parent(&arena), None);
    assert_eq!(p.children(&arena), vec![c]);
    assert_eq!(c.parent(&arena), Some(p));
}

#[test]
fn removed_node_keeps_its_subtree() {
    let mut arena = XmlArena::new();
    let root = element(&mut arena, "root");
    let mid = element(&mut arena, "mid");
    let leaf = text(&mut arena, "leaf");
    root.append_child(&mut arena, mid);
    mid.append_child(&mut arena, leaf);
    mid.remove_node(&mut arena);
    assert_eq!(mid.children(&arena), vec![leaf]);
    assert_eq!(leaf.parent(&arena), Some(mid));
    assert_eq!(root.children_len(&arena), 0);
}

#[test]
fn inserting_a_node_under_itself_changes_nothing() {
    let mut arena = XmlArena::new();
    let a = element(&mut arena, "a");
    let b = element(&mut arena, "b");
    a.append_child(&mut arena, b);
    let before = a.into_string(&arena);
    a.insert_child(&mut arena, 0, a);
    assert_eq!(a.children(&arena), vec![b]);
    assert_eq!(a.parent(&arena), None);
    assert_eq!(a.into_string(&arena), before);
}

#[test]
fn inserting_an_ancestor_changes_nothing() {
    let mut arena = XmlArena::new();
    let top = element(&mut arena, "top");
    let mid = element(&mut arena, "mid");
    let low = element(&mut arena, "low");
    top.append_child(&mut arena, mid);
    mid.append_child(&mut arena, low);
    let before = top.into_string(&arena);
    low.insert_child(&mut arena, 0, top);
    low.insert_child(&mut arena, 0, mid);
    assert_eq!(top.into_string(&arena), before);
    assert_eq!(top.parent(&arena), None);
    assert_eq!(mid.parent(&arena), Some(top));
    assert_eq!(low.parent(&arena), Some(mid));
    assert_eq!(low.children_len(&arena), 0);
    assert_eq!(top.children(&arena), vec![mid]);
    assert_eq!(mid.children(&arena), vec![low]);
}

#[test]
fn reparenting_moves_the_child_and_closes_the_gap() {
    let mut arena = XmlArena::new();
    let old_parent = element(&mut arena, "old");
    let new_parent = element(&mut arena, "new");
    let c0 = element(&mut arena, "c0");
    let c1 = element(&mut arena, "c1");
    let c2 = element(&mut arena, "c2");
    let d0 = element(&mut arena, "d0");
    let d1 = element(&mut arena, "d1");
    for c in [c0, c1, c2] {
        old_parent.append_child(&mut arena, c);
    }
    for d in [d0, d1] {
        new_parent.append_child(&mut arena, d);
    }
    new_parent.insert_child(&mut arena, 1, c1);
    assert_eq!(old_parent.children(&arena), vec![c0, c2]);
    assert_eq!(new_parent.children(&arena), vec![d0, c1, d1]);
    assert_eq!(c1.parent(&arena), Some(new_parent));
    assert_eq!(c0.next_sibling(&arena), Some(c2));
    assert_eq!(c2.prev_sibling(&arena), Some(c0));
    assert_eq!(c1.prev_sibling(&arena), Some(d0));
    assert_eq!(c1.next_sibling(&arena), Some(d1));
    assert_chain(&arena, old_parent);
    assert_chain(&arena, new_parent);
}

#[test]
fn inserting_a_child_of_the_same_parent_moves_it() {
    let mut arena = XmlArena::new();
    let p = element(&mut arena, "p");
    let c0 = element(&mut arena, "c0");
    let c1 = element(&mut arena, "c1");
    let c2 = element(&mut arena, "c2");
    for c in [c0, c1, c2] {
        p.append_child(&mut arena, c);
    }
    // to the end
    p.append_child(&mut arena, c0);
    assert_eq!(p.children(&arena), vec![c1, c2, c0]);
    assert_chain(&arena, p);
    // to the front
    p.insert_child(&mut arena, 0, c0);
    assert_eq!(p.children(&arena), vec![c0, c1, c2]);
    assert_chain(&arena, p);
    // before the node at position 2, counted before the move
    p.insert_child(&mut arena, 2, c0);
    assert_eq!(p.children(&arena), vec![c1, c0, c2]);
    assert_chain(&arena, p);
    // onto its own place
    p.insert_child(&mut arena, 1, c0);
    assert_eq!(p.children(&arena), vec![c1, c0, c2]);
    assert_chain(&arena, p);
}

#[test]
fn moving_a_subtree_down_another_branch() {
    let mut arena = XmlArena::new();
    let root = element(&mut arena, "root");
    let left = element(&mut arena, "left");
    let right = element(&mut arena, "right");
    let leaf = text(&mut arena, "leaf");
    root.append_child(&mut arena, left);
    root.append_child(&mut arena, right);
    left.append_child(&mut arena, leaf);
    right.append_child(&mut arena, left);
    assert_eq!(root.children(&arena), vec![right]);
    assert_eq!(right.children(&arena), vec![left]);
    assert_eq!(left.children(&arena), vec![leaf]);
    assert_eq!(leaf.ancestors(&arena), vec![leaf, left, right, root]);
    assert_chain(&arena, root);
    assert_chain(&arena, right);
    assert_chain(&arena, left);
}

#[test]
fn ancestors_start_with_the_node_itself() {
    let mut arena = XmlArena::new();
    let a = element(&mut arena, "a");
    let b = element(&mut arena, "b");
    let c = element(&mut arena, "c");
    a.append_child(&mut arena, b);
    b.append_child(&mut arena, c);
    assert_eq!(a.ancestors(&arena), vec![a]);
    assert_eq!(c.ancestors(&arena), vec![c, b, a]);
    assert!(a.is_ancestor_or_self_of(&arena, c));
    assert!(c.is_ancestor_or_self_of(&arena, c));
    assert!(!c.is_ancestor_or_self_of(&arena, a));
}

#[test]
fn child_position_and_has_child() {
    let mut arena = XmlArena::new();
    let p = element(&mut arena, "p");
    let q = element(&mut arena, "q");
    let c = element(&mut arena, "c");
    p.append_child(&mut arena, c);
    assert_eq!(p.child_position(&arena, c), Some(0));
    assert_eq!(q.child_position(&arena, c), None);
    assert!(p.has_child(&arena, c));
    assert!(!q.has_child(&arena, c));
    assert!(!c.has_child(&arena, p));
}

#[test]
fn text_nodes_accept_children_like_elements() {
    let mut arena = XmlArena::new();
    let t = text(&mut arena, "t");
    let c = element(&mut arena, "c");
    t.append_child(&mut arena, c);
    assert_eq!(t.children(&arena), vec![c]);
    assert_eq!(c.parent(&arena), Some(t));
}
