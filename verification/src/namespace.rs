//! Qualified names and namespace declarations: the parts of a tag name, and
//! the lookup of a namespace URI or prefix along the ancestors of a node.

use vstd::prelude::*;
use crate::attributes::{lookup, AttributeTable, Entries};
use crate::bytes::{append_bytes, bytes_equal, copy_bytes, copy_range, is_prefix, starts_with};
use crate::search::{first_index_of, lemma_first_index_is, lemma_first_index_of};
use crate::tree::{
    ancestors, lemma_ancestors, lemma_ranking, name_of, opt_view, rank_of, Forest, XmlArena,
    XmlNode,
};

verus! {

/// `:`
pub const COLON: u8 = 0x3a;

/// The attribute name `xmlns`.
pub open spec fn xmlns() -> Seq<u8> {
    seq![0x78u8, 0x6du8, 0x6cu8, 0x6eu8, 0x73u8]
}

/// The attribute name prefix `xmlns:`.
pub open spec fn xmlns_colon() -> Seq<u8> {
    seq![0x78u8, 0x6du8, 0x6cu8, 0x6eu8, 0x73u8, 0x3au8]
}

/// Where a qualified name splits: at its first colon, if anything follows
/// that colon.
pub open spec fn split_point(name: Seq<u8>) -> Option<int> {
    match first_index_of(name, COLON) {
        Some(i) => if i + 1 < name.len() {
            Some(i)
        } else {
            None
        },
        None => None,
    }
}

/// The local part of a name: what follows the split point, or the whole name
/// if it does not split.
pub open spec fn local_part(name: Seq<u8>) -> Seq<u8> {
    match split_point(name) {
        Some(i) => name.subrange(i + 1, name.len() as int),
        None => name,
    }
}

/// The prefix of a name: what precedes the split point, or nothing if the
/// name does not split.
pub open spec fn prefix_part(name: Seq<u8>) -> Seq<u8> {
    match split_point(name) {
        Some(i) => name.subrange(0, i),
        None => Seq::empty(),
    }
}

/// The URI that one node declares for `prefix`: for the empty prefix the
/// value of `xmlns` if that is set; in any case else the value of
/// `xmlns:` followed by the prefix.
pub open spec fn declared_uri(attributes: Entries, prefix: Seq<u8>) -> Option<Seq<u8>> {
    if prefix.len() == 0 && lookup(attributes, xmlns()) is Some {
        lookup(attributes, xmlns())
    } else {
        lookup(attributes, xmlns_colon() + prefix)
    }
}

/// The URI declared for `prefix` by the first node of `chain` that declares
/// one.
pub open spec fn first_declared_uri(s: Forest, chain: Seq<XmlNode>, prefix: Seq<u8>) -> Option<
    Seq<u8>,
>
    decreases chain.len(),
{
    if chain.len() == 0 {
        None
    } else {
        match declared_uri(s[chain[0].index as int].attributes, prefix) {
            Some(uri) => Some(uri),
            None => first_declared_uri(s, chain.drop_first(), prefix),
        }
    }
}

/// The URI of the namespace `prefix` as seen from node `n`: the declaration
/// on the closest of `n` and its ancestors.
pub open spec fn uri_for_namespace(s: Forest, n: XmlNode, prefix: Seq<u8>) -> Option<Seq<u8>> {
    first_declared_uri(s, ancestors(s, n), prefix)
}

/// The prefix that an attribute name declares: the empty prefix for `xmlns`,
/// `p` for `xmlns:p`, none for any other name.
pub open spec fn prefix_declared_by(key: Seq<u8>) -> Option<Seq<u8>> {
    if key == xmlns() {
        Some(Seq::empty())
    } else if is_prefix(xmlns_colon(), key) {
        Some(key.subrange(6, key.len() as int))
    } else {
        None
    }
}

/// The prefix declared by the first attribute at or after position `from`
/// that has the value `uri` and a name that declares a namespace.
pub open spec fn declared_prefix(attributes: Entries, uri: Seq<u8>, from: int) -> Option<Seq<u8>>
    decreases attributes.len() - from,
{
    if from < 0 || from >= attributes.len() {
        None
    } else if attributes[from].1 == uri && prefix_declared_by(attributes[from].0) is Some {
        prefix_declared_by(attributes[from].0)
    } else {
        declared_prefix(attributes, uri, from + 1)
    }
}

/// The prefix declared for `uri` by the first node of `chain` that declares
/// one.
pub open spec fn first_declared_prefix(s: Forest, chain: Seq<XmlNode>, uri: Seq<u8>) -> Option<
    Seq<u8>,
>
    decreases chain.len(),
{
    if chain.len() == 0 {
        None
    } else {
        match declared_prefix(s[chain[0].index as int].attributes, uri, 0) {
            Some(prefix) => Some(prefix),
            None => first_declared_prefix(s, chain.drop_first(), uri),
        }
    }
}

/// The prefix of the namespace `uri` as seen from node `n`: the declaration
/// on the closest of `n` and its ancestors, and on that node the first in
/// ascending order of attribute names.
pub open spec fn namespace_for_uri(s: Forest, n: XmlNode, uri: Seq<u8>) -> Option<Seq<u8>> {
    first_declared_prefix(s, ancestors(s, n), uri)
}

/// The position of the first byte `b` in `s`, if there is one.
pub fn find_byte(s: &[u8], b: u8) -> (r: Option<usize>)
    ensures
        match r {
            Some(i) => first_index_of(s@, b) == Some(i as int),
            None => first_index_of(s@, b) is None,
        },
{
    let mut i: usize = 0;
    while i < s.len()
        invariant
            i <= s@.len(),
            forall|j: int| 0 <= j < i ==> s@[j] != b,
        decreases s@.len() - i,
    {
        if s[i] == b {
            proof {
                lemma_first_index_is(s@, b, i as int);
            }
            return Some(i);
        }
        i += 1;
    }
    proof {
        lemma_first_index_of(s@, b);
    }
    None
}

/// The local part of a qualified name.
pub fn local_part_of(name: &[u8]) -> (r: Vec<u8>)
    ensures
        r@ == local_part(name@),
{
    match find_byte(name, COLON) {
        Some(i) => {
            if i < name.len() - 1 {
                copy_range(name, i + 1, name.len())
            } else {
                copy_bytes(name)
            }
        },
        None => copy_bytes(name),
    }
}

/// The prefix of a qualified name.
pub fn prefix_part_of(name: &[u8]) -> (r: Vec<u8>)
    ensures
        r@ == prefix_part(name@),
{
    match find_byte(name, COLON) {
        Some(i) => {
            if i < name.len() - 1 {
                copy_range(name, 0, i)
            } else {
                Vec::new()
            }
        },
        None => Vec::new(),
    }
}

/// The prefix declared for `uri` by the first attribute of the table, in
/// ascending order of names, that has the value `uri` and a name that declares
/// a namespace.
pub fn prefix_declared_in(attributes: &AttributeTable, uri: &[u8]) -> (r: Option<Vec<u8>>)
    ensures
        opt_view(r) == declared_prefix(attributes@, uri@, 0),
{
    let default_name: Vec<u8> = vec![0x78u8, 0x6du8, 0x6cu8, 0x6eu8, 0x73u8];
    let declaration: Vec<u8> = vec![0x78u8, 0x6du8, 0x6cu8, 0x6eu8, 0x73u8, 0x3au8];
    proof {
        assert(default_name@ =~= xmlns());
        assert(declaration@ =~= xmlns_colon());
    }
    let ghost entries = attributes@;
    let mut i: usize = 0;
    while i < attributes.len()
        invariant
            i <= entries.len(),
            entries == attributes@,
            default_name@ == xmlns(),
            declaration@ == xmlns_colon(),
            declared_prefix(entries, uri@, 0) == declared_prefix(entries, uri@, i as int),
        decreases entries.len() - i,
    {
        let key = attributes.key_at(i);
        if bytes_equal(attributes.value_at(i).as_slice(), uri) {
            if bytes_equal(key.as_slice(), default_name.as_slice()) {
                return Some(Vec::new());
            } else if starts_with(key.as_slice(), declaration.as_slice()) {
                return Some(copy_range(key.as_slice(), 6, key.len()));
            }
        }
        i += 1;
    }
    None
}

impl XmlNode {
    /// The local part of the tag name of this node, if it has a tag name.
    pub fn local_name(self, arena: &XmlArena) -> (r: Option<Vec<u8>>)
        requires
            arena.contains(self),
        ensures
            opt_view(r) == match name_of(arena@[self.index as int]) {
                Some(name) => Some(local_part(name)),
                None => None,
            },
    {
        match self.node_name(arena) {
            Some(name) => Some(local_part_of(name.as_slice())),
            None => None,
        }
    }

    /// The namespace prefix of the tag name of this node, if it has a tag
    /// name: empty where the name has no prefix.
    pub fn prefix(self, arena: &XmlArena) -> (r: Option<Vec<u8>>)
        requires
            arena.contains(self),
        ensures
            opt_view(r) == match name_of(arena@[self.index as int]) {
                Some(name) => Some(prefix_part(name)),
                None => None,
            },
    {
        match self.node_name(arena) {
            Some(name) => Some(prefix_part_of(name.as_slice())),
            None => None,
        }
    }

    /// Looks up the URI of the namespace `namespace`, starting at this node
    /// and going outward through its ancestors; the closest declaration wins.
    pub fn lookup_uri_for_namespace(self, arena: &XmlArena, namespace: &[u8]) -> (r: Option<
        Vec<u8>,
    >)
        requires
            arena.wf(),
            arena.contains(self),
        ensures
            opt_view(r) == uri_for_namespace(arena@, self, namespace@),
    {
        let default_name: Vec<u8> = vec![0x78u8, 0x6du8, 0x6cu8, 0x6eu8, 0x73u8];
        let mut attribute_name: Vec<u8> = vec![0x78u8, 0x6du8, 0x6cu8, 0x6eu8, 0x73u8, 0x3au8];
        append_bytes(&mut attribute_name, namespace);
        proof {
            assert(default_name@ =~= xmlns());
            assert(attribute_name@ =~= xmlns_colon() + namespace@);
        }
        let mut current = self;
        loop
            invariant
                arena.wf(),
                arena.contains(current),
                default_name@ == xmlns(),
                attribute_name@ == xmlns_colon() + namespace@,
                uri_for_namespace(arena@, self, namespace@) == first_declared_uri(
                    arena@,
                    ancestors(arena@, current),
                    namespace@,
                ),
            decreases rank_of(arena@, current),
        {
            proof {
                lemma_ancestors(arena@, current, current);
                lemma_ranking(arena@, current);
                let chain = ancestors(arena@, current);
                match arena@[current.index as int].parent {
                    Some(p) => {
                        assert(chain.drop_first() =~= ancestors(arena@, p));
                    },
                    None => {
                        assert(chain.drop_first() =~= Seq::<XmlNode>::empty());
                        assert(first_declared_uri(arena@, chain.drop_first(), namespace@) is None);
                    },
                }
            }
            if namespace.len() == 0 {
                if let Some(url) = current.attribute_value(arena, default_name.as_slice()) {
                    return Some(url);
                }
            }
            if let Some(url) = current.attribute_value(arena, attribute_name.as_slice()) {
                return Some(url);
            }
            match current.parent(arena) {
                Some(p) => {
                    current = p;
                },
                None => {
                    return None;
                },
            }
        }
    }

    /// Looks up the prefix of the namespace `uri`, starting at this node and
    /// going outward through its ancestors. On each node the attributes are
    /// tried in ascending order of their names; the first one whose value is
    /// `uri` and whose name is `xmlns` or begins with `xmlns:` decides.
    pub fn lookup_namespace_for_uri(self, arena: &XmlArena, uri: &[u8]) -> (r: Option<Vec<u8>>)
        requires
            arena.wf(),
            arena.contains(self),
        ensures
            opt_view(r) == namespace_for_uri(arena@, self, uri@),
    {
        let mut current = self;
        loop
            invariant
                arena.wf(),
                arena.contains(current),
                namespace_for_uri(arena@, self, uri@) == first_declared_prefix(
                    arena@,
                    ancestors(arena@, current),
                    uri@,
                ),
            decreases rank_of(arena@, current),
        {
            proof {
                lemma_ancestors(arena@, current, current);
                lemma_ranking(arena@, current);
                let chain = ancestors(arena@, current);
                match arena@[current.index as int].parent {
                    Some(p) => {
                        assert(chain.drop_first() =~= ancestors(arena@, p));
                    },
                    None => {
                        assert(chain.drop_first() =~= Seq::<XmlNode>::empty());
                        assert(first_declared_prefix(arena@, chain.drop_first(), uri@) is None);
                    },
                }
            }
            let found = prefix_declared_in(arena.data(current).attributes(), uri);
            if found.is_some() {
                return found;
            }
            match current.parent(arena) {
                Some(p) => {
                    current = p;
                },
                None => {
                    return None;
                },
            }
        }
    }
}

} // verus!
