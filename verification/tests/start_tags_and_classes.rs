use xml_tree::native_menu_item::{class_init, create_class, instance_init, ScriptError, Value};
use xml_tree::start_tag::{decode_attributes, StartTag, StartTagError};
use xml_tree::tree::{ScriptObject, XmlArena, XmlNode};

fn b(s: &str) -> Vec<u8> {
    s.as_bytes().to_vec()
}

fn tag(content: &[u8], name_len: usize) -> StartTag {
    StartTag { content: content.to_vec(), name_len }
}

fn no_object(_: XmlNode) -> ScriptObject {
    ScriptObject { id: 0 }
}

#[test]
fn start_tag_with_attributes() {
    let mut arena = XmlArena::new();
    let started =
        XmlNode::from_start_event(&mut arena, &tag(b"item y=\"2\" x='1'", 4), no_object).ok().unwrap();
    let node = started.node;
    assert_eq!(node.index, 0);
    assert_eq!(arena.len(), 1);
    assert_eq!(node.node_type(&arena), 1);
    assert_eq!(node.node_name(&arena), Some(b("item")));
    assert_eq!(node.attribute_keys(&arena), vec![b("x"), b("y")]);
    assert_eq!(node.attribute_value(&arena, b"x"), Some(b("1")));
    assert_eq!(node.attribute_value(&arena, b"y"), Some(b("2")));
    assert_eq!(node.parent(&arena), None);
    assert_eq!(node.children_len(&arena), 0);
    assert!(started.id_binding.is_none());
    assert_eq!(node.get_script_object(&arena), None);
    assert_eq!(node.into_string(&arena), b("<item x=\"1\" y=\"2\" />"));
}

#[test]
fn start_tag_without_attributes() {
    let mut arena = XmlArena::new();
    let started = XmlNode::from_start_event(&mut arena, &tag(b"br", 2), no_object).ok().unwrap();
    assert_eq!(started.node.node_name(&arena), Some(b("br")));
    assert!(started.node.attribute_keys(&arena).is_empty());
}

#[test]
fn start_tag_with_text_beyond_ascii() {
    let mut arena = XmlArena::new();
    let content = "caf\u{e9} na\u{ef}ve=\"\u{20ac}\"".as_bytes().to_vec();
    let started =
        XmlNode::from_start_event(&mut arena, &StartTag { content, name_len: 5 }, no_object).ok().unwrap();
    assert_eq!(started.node.node_name(&arena), Some("caf\u{e9}".as_bytes().to_vec()));
    assert_eq!(
        started.node.attribute_value(&arena, "na\u{ef}ve".as_bytes()),
        Some("\u{20ac}".as_bytes().to_vec())
    );
}

#[test]
fn start_tag_values_are_unescaped() {
    let mut arena = XmlArena::new();
    let started = XmlNode::from_start_event(
        &mut arena,
        &tag(b"a t=\"1 &lt; 2 &amp;&amp; &quot;x&quot; &#65;&#x42;\"", 1),
        no_object,
    )
    .ok()
    .unwrap();
    assert_eq!(started.node.attribute_value(&arena, b"t"), Some(b("1 < 2 && \"x\" AB")));
    // and escaped again when written
    assert_eq!(
        started.node.into_string(&arena),
        b("<a t=\"1 &lt; 2 &amp;&amp; &quot;x&quot; AB\" />")
    );
}

#[test]
fn start_tag_with_id_binds_an_object() {
    let mut arena = XmlArena::new();
    let _other = XmlNode::new_element(&mut arena, b("other"));
    let started = XmlNode::from_start_event(&mut arena, &tag(b"p id=\"main\" k=\"v\"", 1), |node| {
        ScriptObject { id: 40 + node.index as u64 }
    })
    .ok()
    .unwrap();
    assert_eq!(started.node.index, 1);
    let binding = started.id_binding.unwrap();
    assert_eq!(binding.id, b("main"));
    assert_eq!(binding.object, ScriptObject { id: 41 });
    assert_eq!(started.node.get_script_object(&arena), Some(ScriptObject { id: 41 }));
}

#[test]
fn start_tag_with_invalid_name() {
    let mut arena = XmlArena::new();
    let r = XmlNode::from_start_event(&mut arena, &tag(&[0xff, 0xfe, b' ', b'a', b'=', b'"', b'"'], 2), no_object);
    assert_eq!(r.err(), Some(StartTagError::InvalidText));
    assert_eq!(arena.len(), 0);
}

#[test]
fn start_tag_with_invalid_attribute_name() {
    let mut arena = XmlArena::new();
    let r = XmlNode::from_start_event(&mut arena, &tag(&[b'a', b' ', 0xc3, b'=', b'"', b'v', b'"'], 1), no_object);
    assert_eq!(r.err(), Some(StartTagError::InvalidText));
    assert_eq!(arena.len(), 0);
}

#[test]
fn start_tag_with_invalid_attribute_value() {
    let mut arena = XmlArena::new();
    let r = XmlNode::from_start_event(&mut arena, &tag(&[b'a', b' ', b'k', b'=', b'"', 0x80, b'"'], 1), no_object);
    assert_eq!(r.err(), Some(StartTagError::InvalidText));
    // a character reference to a surrogate unescapes to bytes that are no text
    let r = XmlNode::from_start_event(&mut arena, &tag(b"a k=\"&#xD800;\"", 1), no_object);
    assert_eq!(r.err(), Some(StartTagError::InvalidText));
    assert_eq!(arena.len(), 0);
}

#[test]
fn start_tag_with_malformed_attributes() {
    let mut arena = XmlArena::new();
    for content in [&b"a k v=\"1\""[..], &b"a k=v"[..], &b"a k=\"1"[..], &b"a k=\"1\" k=\"2\""[..]] {
        let r = XmlNode::from_start_event(&mut arena, &tag(content, 1), no_object);
        assert_eq!(r.err(), Some(StartTagError::MalformedAttribute));
    }
    assert_eq!(arena.len(), 0);
}

#[test]
fn start_tag_with_invalid_escape() {
    let mut arena = XmlArena::new();
    for content in [&b"a k=\"&foo;\""[..], &b"a k=\"&lt\""[..], &b"a k=\"&#0;\""[..], &b"a k=\"&#xZZ;\""[..]] {
        let r = XmlNode::from_start_event(&mut arena, &tag(content, 1), no_object);
        assert_eq!(r.err(), Some(StartTagError::InvalidEscape));
    }
    assert_eq!(arena.len(), 0);
}

#[test]
fn the_first_failure_is_reported() {
    let mut arena = XmlArena::new();
    // the first attribute has a bad escape, the second is malformed
    let r = XmlNode::from_start_event(&mut arena, &tag(b"a k=\"&foo;\" j x", 1), no_object);
    assert_eq!(r.err(), Some(StartTagError::InvalidEscape));
    // the name is examined before the attributes
    let r = XmlNode::from_start_event(&mut arena, &tag(&[0xff, b' ', b'k'], 1), no_object);
    assert_eq!(r.err(), Some(StartTagError::InvalidText));
    // a good attribute before a malformed one does not save the tag
    let r = XmlNode::from_start_event(&mut arena, &tag(b"a k=\"1\" j x", 1), no_object);
    assert_eq!(r.err(), Some(StartTagError::MalformedAttribute));
}

#[test]
fn decode_attributes_in_order() {
    let events = vec![Ok((b("b"), b("&gt;"))), Ok((b("a"), b("x")))];
    let pairs = decode_attributes(&events).ok().unwrap();
    assert_eq!(pairs, vec![(b("b"), b(">")), (b("a"), b("x"))]);
    let none: Vec<Result<(Vec<u8>, Vec<u8>), quick_xml::Error>> = Vec::new();
    assert_eq!(decode_attributes(&none).ok().unwrap(), Vec::new());
    let failing = vec![Ok((b("a"), b("x"))), Err(quick_xml::Error::TextNotFound), Ok((vec![0xff], b("x")))];
    assert_eq!(decode_attributes(&failing).err(), Some(StartTagError::MalformedAttribute));
    let bad_key = vec![Ok((vec![0xff], b("&foo;")))];
    assert_eq!(decode_attributes(&bad_key).err(), Some(StartTagError::InvalidText));
}

#[test]
fn class_init_returns_undefined() {
    assert_eq!(class_init(None, &[]), Ok(Value::Undefined));
    assert_eq!(class_init(Some(ScriptObject { id: 1 }), &[Value::Bool(true)]), Ok(Value::Undefined));
}

#[test]
fn instance_init_runs_the_super_initializer() {
    let this = ScriptObject { id: 3 };
    assert_eq!(instance_init(|_| Ok(()), Some(this), &[]), Ok(Value::Undefined));
    assert_eq!(
        instance_init(|object: ScriptObject| Err(ScriptError { code: object.id as u32 }), Some(this), &[]),
        Err(ScriptError { code: 3 })
    );
    // without an instance the super initializer does not run
    assert_eq!(
        instance_init(|_| Err(ScriptError { code: 1 }), None, &[Value::Undefined]),
        Ok(Value::Undefined)
    );
}

#[test]
fn native_menu_item_class() {
    let class = create_class();
    assert_eq!(class.name.package, "flash.display");
    assert_eq!(class.name.name, "NativeMenuItem");
    let parent = class.super_class.unwrap();
    assert_eq!(parent.package, "flash.events");
    assert_eq!(parent.name, "EventDispatcher");
    assert!(class.sealed);
    assert_eq!(class.instance_initializer, "<NativeMenuItem instance initializer>");
    assert_eq!(class.class_initializer, "<NativeMenuItem class initializer>");
    assert_eq!(class.instance_slots.len(), 1);
    assert_eq!(class.instance_slots[0].name, "enabled");
    assert_eq!(class.instance_slots[0].namespace, "");
    assert_eq!(class.instance_slots[0].slot_type, "Boolean");
}
