//! Building an element from the start tag that a parser has found: the tag
//! name and the attributes are decoded, and the element is made only if all
//! of them are valid text.

use vstd::prelude::*;
use vstd::utf8::valid_utf8;
use crate::attributes::{lookup, with_entry, Entries};
use crate::bytes::{copy_bytes, copy_range};
use crate::tree::{fresh_node, NodeView, ScriptObject, XmlArena, XmlNode, ELEMENT_NODE};

verus! {

/// The error type of `quick_xml`.
#[verifier::external_type_specification]
#[verifier::external_body]
pub struct ExQuickXmlError(quick_xml::Error);

/// The content of a start tag as the parser hands it over: the tag name
/// followed by the text of the attributes, and the length of the name.
pub struct StartTag {
    pub content: Vec<u8>,
    pub name_len: usize,
}

/// Why no element could be made from a start tag.
#[derive(Clone, Copy, PartialEq, Eq, Structural, Debug)]
pub enum StartTagError {
    /// The tag name, an attribute name or an attribute value is not UTF-8.
    InvalidText,
    /// The text of the attributes does not have the form of attributes, or an
    /// attribute occurs twice.
    MalformedAttribute,
    /// An attribute value holds an escape sequence that has no meaning.
    InvalidEscape,
}

/// An entry for the host's map of ids: the value of an `id` attribute and the
/// object of the element that carries it.
pub struct IdBinding {
    pub id: Vec<u8>,
    pub object: ScriptObject,
}

/// An element made from a start tag, and the entry that the host's map of
/// ids is owed for it, if the element has an `id` attribute.
pub struct StartedElement {
    pub node: XmlNode,
    pub id_binding: Option<IdBinding>,
}

/// What the attribute iterator of `quick_xml` yields, item by item, for the
/// start tag `content` with a name of `name_len` bytes: for each attribute its
/// name and its raw value, or nothing where the iterator reports an error.
pub uninterp spec fn attribute_events(content: Seq<u8>, name_len: nat) -> Seq<
    Option<(Seq<u8>, Seq<u8>)>,
>;

/// What `quick_xml` makes of a raw attribute value when it replaces the
/// escape sequences in it: the unescaped value, or nothing where it reports
/// an error.
pub uninterp spec fn unescaped(raw: Seq<u8>) -> Option<Seq<u8>>;

/// The attribute name `id`.
pub open spec fn id_name() -> Seq<u8> {
    seq![0x69u8, 0x64u8]
}

/// What one item of the attribute iterator says, without the error's detail.
pub open spec fn event_view(event: Result<(Vec<u8>, Vec<u8>), quick_xml::Error>) -> Option<
    (Seq<u8>, Seq<u8>),
> {
    match event {
        Ok(pair) => Some((pair.0@, pair.1@)),
        Err(_) => None,
    }
}

/// What a list of items of the attribute iterator says.
pub open spec fn events_view(events: Seq<Result<(Vec<u8>, Vec<u8>), quick_xml::Error>>) -> Seq<
    Option<(Seq<u8>, Seq<u8>)>,
> {
    Seq::new(events.len(), |i: int| event_view(events[i]))
}

/// The views of a list of name and value pairs.
pub open spec fn pairs_view(pairs: Seq<(Vec<u8>, Vec<u8>)>) -> Seq<(Seq<u8>, Seq<u8>)> {
    Seq::new(pairs.len(), |i: int| (pairs[i].0@, pairs[i].1@))
}

/// The decoded form of one attribute: its name and its unescaped value, if
/// the parser found an attribute, the name is UTF-8, the value can be
/// unescaped and the unescaped value is UTF-8; else the first of these that
/// fails.
pub open spec fn decoded_attribute(event: Option<(Seq<u8>, Seq<u8>)>) -> Result<
    (Seq<u8>, Seq<u8>),
    StartTagError,
> {
    match event {
        None => Err(StartTagError::MalformedAttribute),
        Some((key, raw)) => if !valid_utf8(key) {
            Err(StartTagError::InvalidText)
        } else {
            match unescaped(raw) {
                None => Err(StartTagError::InvalidEscape),
                Some(value) => if !valid_utf8(value) {
                    Err(StartTagError::InvalidText)
                } else {
                    Ok((key, value))
                },
            }
        },
    }
}

/// The decoded attributes in the order of the start tag, or the error of the
/// first attribute that cannot be decoded.
pub open spec fn decoded_attributes(events: Seq<Option<(Seq<u8>, Seq<u8>)>>) -> Result<
    Seq<(Seq<u8>, Seq<u8>)>,
    StartTagError,
>
    decreases events.len(),
{
    if events.len() == 0 {
        Ok(Seq::empty())
    } else {
        match decoded_attributes(events.drop_last()) {
            Err(e) => Err(e),
            Ok(done) => match decoded_attribute(events.last()) {
                Err(e) => Err(e),
                Ok(pair) => Ok(done.push(pair)),
            },
        }
    }
}

/// The attribute table that results from setting the pairs one after the
/// other.
pub open spec fn table_of(pairs: Seq<(Seq<u8>, Seq<u8>)>) -> Entries
    decreases pairs.len(),
{
    if pairs.len() == 0 {
        Entries::empty()
    } else {
        with_entry(table_of(pairs.drop_last()), pairs.last().0, pairs.last().1)
    }
}

/// What a start tag gives: its decoded attributes, or the reason why it
/// gives no element. The tag name is examined first.
pub open spec fn start_tag_outcome(content: Seq<u8>, name_len: nat) -> Result<
    Seq<(Seq<u8>, Seq<u8>)>,
    StartTagError,
> {
    if !valid_utf8(content.subrange(0, name_len as int)) {
        Err(StartTagError::InvalidText)
    } else {
        decoded_attributes(attribute_events(content, name_len))
    }
}

/// Calls `quick_xml::events::BytesStart::attributes` on a start tag made of
/// `content` and `name_len`, and collects what the iterator yields. The
/// contract names that list; which list it is, is not stated here, but for
/// one case: the iterator yields nothing where nothing follows the name.
#[verifier::external_body]
pub(crate) fn read_attributes(content: &[u8], name_len: usize) -> (r: Vec<
    Result<(Vec<u8>, Vec<u8>), quick_xml::Error>,
>)
    ensures
        r@.len() == attribute_events(content@, name_len as nat).len(),
        name_len >= content@.len() ==> r@.len() == 0,
        forall|i: int|
            0 <= i < r@.len() ==> event_view(#[trigger] r@[i]) == attribute_events(
                content@,
                name_len as nat,
            )[i],
{
    quick_xml::events::BytesStart::borrowed(content, name_len).attributes().map(
        |item| item.map(|attribute| (attribute.key.to_vec(), attribute.value.into_owned())),
    ).collect()
}

/// Calls `quick_xml::events::attributes::Attribute::unescaped_value` on an
/// attribute with the raw value `raw`. The contract names the outcome; which
/// value it is, is not stated here.
#[verifier::external_body]
pub(crate) fn unescape_value(raw: &[u8]) -> (r: Result<Vec<u8>, quick_xml::Error>)
    ensures
        match r {
            Ok(value) => unescaped(raw@) == Some(value@),
            Err(_) => unescaped(raw@) is None,
        },
{
    let attribute = quick_xml::events::attributes::Attribute {
        key: &[],
        value: std::borrow::Cow::Borrowed(raw),
    };
    attribute.unescaped_value().map(|value| value.into_owned())
}

/// Calls `std::str::from_utf8`, which accepts exactly the byte strings that
/// are UTF-8.
#[verifier::external_body]
pub(crate) fn is_utf8(bytes: &[u8]) -> (r: bool)
    ensures
        r == valid_utf8(bytes@),
{
    std::str::from_utf8(bytes).is_ok()
}

/// Decodes what the attribute iterator has yielded: the names and unescaped
/// values in order, or the error of the first item that cannot be decoded.
pub fn decode_attributes(events: &Vec<Result<(Vec<u8>, Vec<u8>), quick_xml::Error>>) -> (r: Result<
    Vec<(Vec<u8>, Vec<u8>)>,
    StartTagError,
>)
    ensures
        match r {
            Ok(pairs) => decoded_attributes(events_view(events@)) == Ok::<
                Seq<(Seq<u8>, Seq<u8>)>,
                StartTagError,
            >(pairs_view(pairs@)),
            Err(e) => decoded_attributes(events_view(events@)) == Err::<
                Seq<(Seq<u8>, Seq<u8>)>,
                StartTagError,
            >(e),
        },
{
    let ghost all = events_view(events@);
    let mut pairs: Vec<(Vec<u8>, Vec<u8>)> = Vec::new();
    let mut i: usize = 0;
    proof {
        assert(all.take(0) =~= Seq::empty());
        assert(pairs_view(pairs@) =~= Seq::empty());
    }
    while i < events.len()
        invariant
            i <= events@.len(),
            all == events_view(events@),
            decoded_attributes(all.take(i as int)) == Ok::<
                Seq<(Seq<u8>, Seq<u8>)>,
                StartTagError,
            >(pairs_view(pairs@)),
        decreases events@.len() - i,
    {
        proof {
            assert(all.take(i + 1).drop_last() =~= all.take(i as int));
            assert(all.take(i + 1).last() == event_view(events@[i as int]));
            if decoded_attributes(all.take(i + 1)) is Err {
                lemma_first_error_stays(all, i + 1);
            }
        }
        match &events[i] {
            Err(_) => {
                return Err(StartTagError::MalformedAttribute);
            },
            Ok(pair) => {
                if !is_utf8(pair.0.as_slice()) {
                    return Err(StartTagError::InvalidText);
                }
                match unescape_value(pair.1.as_slice()) {
                    Err(_) => {
                        return Err(StartTagError::InvalidEscape);
                    },
                    Ok(value) => {
                        if !is_utf8(value.as_slice()) {
                            return Err(StartTagError::InvalidText);
                        }
                        let ghost before = pairs_view(pairs@);
                        pairs.push((copy_bytes(pair.0.as_slice()), value));
                        proof {
                            assert(pairs_view(pairs@) =~= before.push((pair.0@, value@)));
                        }
                    },
                }
            },
        }
        i += 1;
    }
    proof {
        assert(all.take(all.len() as int) =~= all);
    }
    Ok(pairs)
}

/// Once an attribute has failed to decode, the attributes after it do not
/// matter: the error stays.
pub proof fn lemma_first_error_stays(events: Seq<Option<(Seq<u8>, Seq<u8>)>>, k: int)
    requires
        0 <= k <= events.len(),
        decoded_attributes(events.take(k)) is Err,
    ensures
        decoded_attributes(events) == decoded_attributes(events.take(k)),
    decreases events.len(),
{
    if k < events.len() {
        assert(events.drop_last().take(k) =~= events.take(k));
        lemma_first_error_stays(events.drop_last(), k);
    } else {
        assert(events.take(k) =~= events);
    }
}

/// The element that a start tag gives: an element node named `name` with the
/// attributes of `pairs`, bound to `object` if it is bound, and without
/// links.
pub open spec fn started_node(
    name: Seq<u8>,
    pairs: Seq<(Seq<u8>, Seq<u8>)>,
    object: Option<ScriptObject>,
) -> NodeView {
    NodeView {
        attributes: table_of(pairs),
        script_object: object,
        ..fresh_node(ELEMENT_NODE, Some(name))
    }
}

/// The object of an entry for the map of ids, if there is an entry.
pub open spec fn bound_object(binding: Option<IdBinding>) -> Option<ScriptObject> {
    match binding {
        Some(b) => Some(b.object),
        None => None,
    }
}

impl XmlNode {
    /// Makes an element from a start tag.
    ///
    /// The tag name and every attribute name and value must be UTF-8, the
    /// attributes must be well formed, and the escape sequences in their
    /// values must have a meaning: the first of these that fails is reported,
    /// and the arena stays as it was. Otherwise a new element is made with
    /// the tag name and the attributes, their values unescaped. If it has an
    /// `id` attribute, the element is bound to an object that `make_object`
    /// makes for it, and the entry for the host's map of ids is handed out
    /// with the element.
    pub fn from_start_event<F: FnOnce(XmlNode) -> ScriptObject>(
        arena: &mut XmlArena,
        tag: &StartTag,
        make_object: F,
    ) -> (r: Result<StartedElement, StartTagError>)
        requires
            old(arena).wf(),
            tag.name_len <= tag.content@.len(),
            make_object.requires((XmlNode { index: old(arena)@.len() as usize },)),
        ensures
            final(arena).wf(),
            match r {
                Err(e) => start_tag_outcome(tag.content@, tag.name_len as nat) == Err::<
                    Seq<(Seq<u8>, Seq<u8>)>,
                    StartTagError,
                >(e) && final(arena)@ == old(arena)@,
                Ok(started) => {
                    &&& start_tag_outcome(tag.content@, tag.name_len as nat) matches Ok(pairs)
                    &&& started.node.index == old(arena)@.len()
                    &&& final(arena)@ == old(arena)@.push(
                        started_node(
                            tag.content@.subrange(0, tag.name_len as int),
                            pairs,
                            bound_object(started.id_binding),
                        ),
                    )
                    &&& match lookup(table_of(pairs), id_name()) {
                        Some(id) => started.id_binding matches Some(b) && b.id@ == id
                            && make_object.ensures((started.node,), b.object),
                        None => started.id_binding is None,
                    }
                },
            },
    {
        let name = copy_range(tag.content.as_slice(), 0, tag.name_len);
        if !is_utf8(name.as_slice()) {
            return Err(StartTagError::InvalidText);
        }
        let events = read_attributes(tag.content.as_slice(), tag.name_len);
        proof {
            assert(events_view(events@) =~= attribute_events(tag.content@, tag.name_len as nat));
        }
        let pairs = match decode_attributes(&events) {
            Ok(pairs) => pairs,
            Err(e) => {
                return Err(e);
            },
        };
        let ghost all = pairs_view(pairs@);
        let ghost base = old(arena)@;
        let node = XmlNode::new_element(arena, name);
        let mut i: usize = 0;
        proof {
            assert(all.take(0) =~= Seq::empty());
            assert(arena@ =~~= base.push(started_node(name@, all.take(0), None)));
        }
        while i < pairs.len()
            invariant
                i <= pairs@.len(),
                all == pairs_view(pairs@),
                arena.wf(),
                node.index == base.len(),
                arena@ == base.push(started_node(name@, all.take(i as int), None)),
            decreases pairs@.len() - i,
        {
            let key = copy_bytes(pairs[i].0.as_slice());
            let value = copy_bytes(pairs[i].1.as_slice());
            node.set_attribute_value(arena, key, value);
            proof {
                assert(all.take(i + 1).drop_last() =~= all.take(i as int));
                assert(all.take(i + 1).last() == all[i as int]);
                assert(arena@ =~~= base.push(started_node(name@, all.take(i + 1), None)));
            }
            i += 1;
        }
        proof {
            assert(all.take(all.len() as int) =~= all);
        }
        let id_key: Vec<u8> = vec![0x69u8, 0x64u8];
        proof {
            assert(id_key@ =~= id_name());
        }
        match node.attribute_value(arena, id_key.as_slice()) {
            Some(id) => {
                let object = node.script_object(arena, make_object);
                proof {
                    assert(arena@ =~~= base.push(started_node(name@, all, Some(object))));
                }
                Ok(StartedElement { node, id_binding: Some(IdBinding { id, object }) })
            },
            None => Ok(StartedElement { node, id_binding: None }),
        }
    }
}

} // verus!
