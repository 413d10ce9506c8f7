use xml_tree::attributes::AttributeTable;
use xml_tree::bytes::{append_bytes, bytes_equal, bytes_less, copy_bytes, copy_range, starts_with};
use xml_tree::namespace::{find_byte, local_part_of, prefix_declared_in, prefix_part_of};
use xml_tree::tree::{XmlArena, XmlNode};

fn b(s: &str) -> Vec<u8> {
    s.as_bytes().to_vec()
}

#[test]
fn byte_strings_are_ordered_lexicographically() {
    assert!(bytes_less(b"a", b"b"));
    assert!(bytes_less(b"a", b"ab"));
    assert!(bytes_less(b"", b"a"));
    assert!(bytes_less(b"ab", b"b"));
    assert!(bytes_less(b"Z", b"a"));
    assert!(!bytes_less(b"a", b"a"));
    assert!(!bytes_less(b"b", b"a"));
    assert!(!bytes_less(b"ab", b"a"));
    assert!(!bytes_less(b"", b""));
    assert!(bytes_less(&[0x7f], &[0x80]));
}

#[test]
fn byte_string_helpers() {
    assert!(bytes_equal(b"xmlns", b"xmlns"));
    assert!(!bytes_equal(b"xmlns", b"xmln"));
    assert!(!bytes_equal(b"xmlns", b"xmlnt"));
    assert!(bytes_equal(b"", b""));
    assert!(starts_with(b"xmlns:a", b"xmlns:"));
    assert!(starts_with(b"xmlns:", b"xmlns:"));
    assert!(starts_with(b"abc", b""));
    assert!(!starts_with(b"xmlns", b"xmlns:"));
    assert!(!starts_with(b"xmlnt:a", b"xmlns:"));
    assert_eq!(copy_bytes(b"abc"), b("abc"));
    assert_eq!(copy_range(b"abcdef", 2, 4), b("cd"));
    assert_eq!(copy_range(b"abcdef", 3, 3), b(""));
    let mut buf = b("ab");
    append_bytes(&mut buf, b"cd");
    assert_eq!(buf, b("abcd"));
    assert_eq!(find_byte(b"a:b:c", b':'), Some(1));
    assert_eq!(find_byte(b"abc", b':'), None);
}

#[test]
fn attribute_table_keeps_names_ascending() {
    let mut table = AttributeTable::new();
    table.set(b("y"), b("2"));
    table.set(b("x"), b("1"));
    table.set(b("z"), b("3"));
    table.set(b("xa"), b("4"));
    assert_eq!(table.len(), 4);
    assert_eq!(table.keys(), vec![b("x"), b("xa"), b("y"), b("z")]);
    assert_eq!(table.key_at(1), &b("xa"));
    assert_eq!(table.value_at(1), &b("4"));
    assert_eq!(table.get(b"x"), Some(b("1")));
    assert_eq!(table.get(b"w"), None);
}

#[test]
fn attribute_table_set_overwrites() {
    let mut table = AttributeTable::new();
    table.set(b("k"), b("1"));
    table.set(b("k"), b("2"));
    assert_eq!(table.len(), 1);
    assert_eq!(table.get(b"k"), Some(b("2")));
}

#[test]
fn attribute_table_delete() {
    let mut table = AttributeTable::new();
    table.set(b("a"), b("1"));
    table.set(b("b"), b("2"));
    table.set(b("c"), b("3"));
    table.delete(b"b");
    assert_eq!(table.keys(), vec![b("a"), b("c")]);
    assert_eq!(table.get(b"b"), None);
    table.delete(b"missing");
    assert_eq!(table.keys(), vec![b("a"), b("c")]);
    table.delete(b"a");
    table.delete(b"c");
    assert_eq!(table.len(), 0);
}

#[test]
fn attribute_table_duplicate_is_a_copy() {
    let mut table = AttributeTable::new();
    table.set(b("a"), b("1"));
    let mut copy = table.duplicate();
    copy.set(b("a"), b("2"));
    copy.set(b("b"), b("3"));
    assert_eq!(table.keys(), vec![b("a")]);
    assert_eq!(table.get(b"a"), Some(b("1")));
    assert_eq!(copy.get(b"a"), Some(b("2")));
}

#[test]
fn node_attributes() {
    let mut arena = XmlArena::new();
    let e = XmlNode::new_element(&mut arena, b("e"));
    e.set_attribute_value(&mut arena, b("y"), b("2"));
    e.set_attribute_value(&mut arena, b("x"), b("1"));
    assert_eq!(e.attribute_keys(&arena), vec![b("x"), b("y")]);
    assert_eq!(e.attribute_value(&arena, b"x"), Some(b("1")));
    assert_eq!(e.attribute_value(&arena, b"nope"), None);
    e.set_attribute_value(&mut arena, b("x"), b("one"));
    assert_eq!(e.attribute_value(&arena, b"x"), Some(b("one")));
    e.delete_attribute(&mut arena, b"x");
    assert_eq!(e.attribute_keys(&arena), vec![b("y")]);
    e.delete_attribute(&mut arena, b"x");
    assert_eq!(e.attribute_keys(&arena), vec![b("y")]);
    assert_eq!(arena.data(e).attributes().len(), 1);
    assert_eq!(arena.data(e).node_type(), 1);
    assert_eq!(arena.data(e).value(), &Some(b("e")));
    assert!(arena.data(e).children().is_empty());
}

#[test]
fn local_name_and_prefix() {
    assert_eq!(local_part_of(b"ns:tag"), b("tag"));
    assert_eq!(prefix_part_of(b"ns:tag"), b("ns"));
    assert_eq!(local_part_of(b"tag"), b("tag"));
    assert_eq!(prefix_part_of(b"tag"), b(""));
    // a colon with nothing after it does not split the name
    assert_eq!(local_part_of(b"tag:"), b("tag:"));
    assert_eq!(prefix_part_of(b"tag:"), b(""));
    // the first colon splits
    assert_eq!(local_part_of(b"a:b:c"), b("b:c"));
    assert_eq!(prefix_part_of(b"a:b:c"), b("a"));
    assert_eq!(local_part_of(b":x"), b("x"));
    assert_eq!(prefix_part_of(b":x"), b(""));

    let mut arena = XmlArena::new();
    let e = XmlNode::new_element(&mut arena, b("svg:rect"));
    let t = XmlNode::new_text(&mut arena, b("a:b"));
    let root = XmlNode::new_document_root(&mut arena);
    assert_eq!(e.local_name(&arena), Some(b("rect")));
    assert_eq!(e.prefix(&arena), Some(b("svg")));
    assert_eq!(t.local_name(&arena), None);
    assert_eq!(t.prefix(&arena), None);
    assert_eq!(root.local_name(&arena), None);
    assert_eq!(root.prefix(&arena), None);
}

#[test]
fn namespace_lookup_through_ancestors() {
    let mut arena = XmlArena::new();
    let root = XmlNode::new_element(&mut arena, b("root"));
    let mid = XmlNode::new_element(&mut arena, b("mid"));
    let leaf = XmlNode::new_element(&mut arena, b("leaf"));
    root.append_child(&mut arena, mid);
    mid.append_child(&mut arena, leaf);
    root.set_attribute_value(&mut arena, b("xmlns:ns"), b("http://example.com"));
    assert_eq!(leaf.lookup_uri_for_namespace(&arena, b"ns"), Some(b("http://example.com")));
    assert_eq!(leaf.lookup_namespace_for_uri(&arena, b"http://example.com"), Some(b("ns")));
    assert_eq!(root.lookup_uri_for_namespace(&arena, b"ns"), Some(b("http://example.com")));
    assert_eq!(leaf.lookup_uri_for_namespace(&arena, b"other"), None);
    assert_eq!(leaf.lookup_uri_for_namespace(&arena, b""), None);
    assert_eq!(leaf.lookup_namespace_for_uri(&arena, b"http://other.example"), None);
}

#[test]
fn closest_namespace_declaration_wins() {
    let mut arena = XmlArena::new();
    let root = XmlNode::new_element(&mut arena, b("root"));
    let mid = XmlNode::new_element(&mut arena, b("mid"));
    let leaf = XmlNode::new_element(&mut arena, b("leaf"));
    root.append_child(&mut arena, mid);
    mid.append_child(&mut arena, leaf);
    root.set_attribute_value(&mut arena, b("xmlns:ns"), b("far"));
    mid.set_attribute_value(&mut arena, b("xmlns:ns"), b("near"));
    root.set_attribute_value(&mut arena, b("xmlns:p"), b("uri"));
    mid.set_attribute_value(&mut arena, b("xmlns:q"), b("uri"));
    assert_eq!(leaf.lookup_uri_for_namespace(&arena, b"ns"), Some(b("near")));
    assert_eq!(root.lookup_uri_for_namespace(&arena, b"ns"), Some(b("far")));
    assert_eq!(leaf.lookup_namespace_for_uri(&arena, b"uri"), Some(b("q")));
    assert_eq!(root.lookup_namespace_for_uri(&arena, b"uri"), Some(b("p")));
}

#[test]
fn default_namespace() {
    let mut arena = XmlArena::new();
    let root = XmlNode::new_element(&mut arena, b("root"));
    let leaf = XmlNode::new_element(&mut arena, b("leaf"));
    root.append_child(&mut arena, leaf);
    root.set_attribute_value(&mut arena, b("xmlns"), b("http://default.example"));
    assert_eq!(leaf.lookup_uri_for_namespace(&arena, b""), Some(b("http://default.example")));
    assert_eq!(leaf.lookup_namespace_for_uri(&arena, b"http://default.example"), Some(b("")));
    // `xmlns` answers for the empty prefix only
    assert_eq!(leaf.lookup_uri_for_namespace(&arena, b"xmlns"), None);
}

#[test]
fn empty_prefix_falls_back_to_the_bare_colon_name() {
    let mut arena = XmlArena::new();
    let root = XmlNode::new_element(&mut arena, b("root"));
    root.set_attribute_value(&mut arena, b("xmlns:"), b("odd"));
    assert_eq!(root.lookup_uri_for_namespace(&arena, b""), Some(b("odd")));
    root.set_attribute_value(&mut arena, b("xmlns"), b("plain"));
    assert_eq!(root.lookup_uri_for_namespace(&arena, b""), Some(b("plain")));
}

#[test]
fn namespace_for_uri_goes_by_ascending_names() {
    let mut arena = XmlArena::new();
    let e = XmlNode::new_element(&mut arena, b("e"));
    e.set_attribute_value(&mut arena, b("xmlns:zeta"), b("uri"));
    e.set_attribute_value(&mut arena, b("xmlns:alpha"), b("uri"));
    e.set_attribute_value(&mut arena, b("href"), b("uri"));
    assert_eq!(e.lookup_namespace_for_uri(&arena, b"uri"), Some(b("alpha")));
    // `xmlns` sorts before every `xmlns:` name
    e.set_attribute_value(&mut arena, b("xmlns"), b("uri"));
    assert_eq!(e.lookup_namespace_for_uri(&arena, b"uri"), Some(b("")));
    assert_eq!(prefix_declared_in(arena.data(e).attributes(), b"uri"), Some(b("")));
    assert_eq!(prefix_declared_in(arena.data(e).attributes(), b"none"), None);
}

#[test]
fn attributes_that_declare_nothing_are_passed_over() {
    let mut arena = XmlArena::new();
    let root = XmlNode::new_element(&mut arena, b("root"));
    let leaf = XmlNode::new_element(&mut arena, b("leaf"));
    root.append_child(&mut arena, leaf);
    leaf.set_attribute_value(&mut arena, b("href"), b("uri"));
    leaf.set_attribute_value(&mut arena, b("xmlnsx"), b("uri"));
    root.set_attribute_value(&mut arena, b("xmlns:r"), b("uri"));
    assert_eq!(leaf.lookup_namespace_for_uri(&arena, b"uri"), Some(b("r")));
}
