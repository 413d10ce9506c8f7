use xml_tree::tree::{XmlArena, XmlNode};

fn b(s: &str) -> Vec<u8> {
    s.as_bytes().to_vec()
}

#[test]
fn element_with_attributes_and_text() {
    let mut arena = XmlArena::new();
    let a = XmlNode::new_element(&mut arena, b("a"));
    a.set_attribute_value(&mut arena, b("y"), b("2"));
    a.set_attribute_value(&mut arena, b("x"), b("1"));
    assert_eq!(a.into_string(&arena), b("<a x=\"1\" y=\"2\" />"));
    let hi = XmlNode::new_text(&mut arena, b("hi"));
    a.append_child(&mut arena, hi);
    assert_eq!(a.into_string(&arena), b("<a x=\"1\" y=\"2\">hi</a>"));
}

#[test]
fn text_is_escaped() {
    let mut arena = XmlArena::new();
    let t = XmlNode::new_text(&mut arena, b("a<b&c"));
    assert_eq!(t.into_string(&arena), b("a&lt;b&amp;c"));
    let all = XmlNode::new_text(&mut arena, b("<>&'\""));
    assert_eq!(all.into_string(&arena), b("&lt;&gt;&amp;&apos;&quot;"));
    let plain = XmlNode::new_text(&mut arena, b("plain text"));
    assert_eq!(plain.into_string(&arena), b("plain text"));
    let empty = XmlNode::new_text(&mut arena, b(""));
    assert_eq!(empty.into_string(&arena), b(""));
}

#[test]
fn attribute_values_are_escaped() {
    let mut arena = XmlArena::new();
    let e = XmlNode::new_element(&mut arena, b("e"));
    e.set_attribute_value(&mut arena, b("q"), b("he said \"hi\""));
    let text = e.into_string(&arena);
    assert_eq!(text, b("<e q=\"he said &quot;hi&quot;\" />"));
    // between the quotes that delimit the value there is no quote
    let start = text.iter().position(|&c| c == b'"').unwrap() + 1;
    let end = text.iter().rposition(|&c| c == b'"').unwrap();
    assert!(!text[start..end].contains(&b'"'));
}

#[test]
fn tag_and_attribute_names_are_written_as_they_are() {
    let mut arena = XmlArena::new();
    let e = XmlNode::new_element(&mut arena, b("a&b"));
    e.set_attribute_value(&mut arena, b("k<"), b("v"));
    assert_eq!(e.into_string(&arena), b("<a&b k<=\"v\" />"));
}

#[test]
fn document_root_has_no_tag() {
    let mut arena = XmlArena::new();
    let root = XmlNode::new_document_root(&mut arena);
    assert_eq!(root.into_string(&arena), b(""));
    let a = XmlNode::new_element(&mut arena, b("a"));
    let t = XmlNode::new_text(&mut arena, b("x"));
    let c = XmlNode::new_element(&mut arena, b("c"));
    root.append_child(&mut arena, a);
    root.append_child(&mut arena, t);
    root.append_child(&mut arena, c);
    // attributes of a root are not written
    root.set_attribute_value(&mut arena, b("k"), b("v"));
    assert_eq!(root.into_string(&arena), b("<a />x<c />"));
}

#[test]
fn nested_elements() {
    let mut arena = XmlArena::new();
    let root = XmlNode::new_element(&mut arena, b("root"));
    let list = XmlNode::new_element(&mut arena, b("list"));
    let one = XmlNode::new_element(&mut arena, b("item"));
    let two = XmlNode::new_element(&mut arena, b("item"));
    let t1 = XmlNode::new_text(&mut arena, b("1 < 2"));
    root.append_child(&mut arena, list);
    list.append_child(&mut arena, one);
    list.append_child(&mut arena, two);
    one.append_child(&mut arena, t1);
    two.set_attribute_value(&mut arena, b("id"), b("b"));
    assert_eq!(
        root.into_string(&arena),
        b("<root><list><item>1 &lt; 2</item><item id=\"b\" /></list></root>")
    );
    assert_eq!(list.into_string(&arena), b("<list><item>1 &lt; 2</item><item id=\"b\" /></list>"));
    let mut out = b("pre:");
    one.write_node_to_string(&arena, &mut out);
    assert_eq!(out, b("pre:<item>1 &lt; 2</item>"));
}

#[test]
fn text_node_content_only() {
    let mut arena = XmlArena::new();
    let t = XmlNode::new_text(&mut arena, b("t"));
    let c = XmlNode::new_element(&mut arena, b("c"));
    t.append_child(&mut arena, c);
    t.set_attribute_value(&mut arena, b("k"), b("v"));
    assert_eq!(t.into_string(&arena), b("t"));
}
