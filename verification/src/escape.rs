//! Escaping of markup characters in text and attribute values.

use vstd::prelude::*;

verus! {

/// `<`
pub const LESS_THAN: u8 = 0x3c;

/// `>`
pub const GREATER_THAN: u8 = 0x3e;

/// `&`
pub const AMPERSAND: u8 = 0x26;

/// `'`
pub const APOSTROPHE: u8 = 0x27;

/// `"`
pub const QUOTE: u8 = 0x22;

/// What one byte becomes: `&lt;`, `&gt;`, `&apos;`, `&amp;` or `&quot;` for
/// the five markup characters, and the byte itself for any other.
pub open spec fn escaped_byte(b: u8) -> Seq<u8> {
    if b == LESS_THAN {
        seq![0x26u8, 0x6cu8, 0x74u8, 0x3bu8]
    } else if b == GREATER_THAN {
        seq![0x26u8, 0x67u8, 0x74u8, 0x3bu8]
    } else if b == APOSTROPHE {
        seq![0x26u8, 0x61u8, 0x70u8, 0x6fu8, 0x73u8, 0x3bu8]
    } else if b == AMPERSAND {
        seq![0x26u8, 0x61u8, 0x6du8, 0x70u8, 0x3bu8]
    } else if b == QUOTE {
        seq![0x26u8, 0x71u8, 0x75u8, 0x6fu8, 0x74u8, 0x3bu8]
    } else {
        seq![b]
    }
}

/// The escaped form of a byte string: the escaped forms of its bytes, in
/// order.
pub open spec fn escaped(s: Seq<u8>) -> Seq<u8>
    decreases s.len(),
{
    if s.len() == 0 {
        Seq::empty()
    } else {
        escaped(s.drop_last()) + escaped_byte(s.last())
    }
}

/// Escaped text holds no `<`, `>`, `'` or `"`: wherever it is placed, it
/// neither opens or closes a tag nor ends a quoted attribute value.
pub proof fn lemma_escaped_is_inert(s: Seq<u8>, i: int)
    requires
        0 <= i < escaped(s).len(),
    ensures
        escaped(s)[i] != LESS_THAN,
        escaped(s)[i] != GREATER_THAN,
        escaped(s)[i] != APOSTROPHE,
        escaped(s)[i] != QUOTE,
    decreases s.len(),
{
    if s.len() > 0 {
        let head = escaped(s.drop_last());
        if i < head.len() {
            lemma_escaped_is_inert(s.drop_last(), i);
        }
    }
}

/// Calls `quick_xml::escape::escape`, which copies its input and puts the
/// entity `&lt;`, `&gt;`, `&apos;`, `&amp;` or `&quot;` in place of each `<`,
/// `>`, `'`, `&` or `"`. The contract is taken from that function's source
/// and is not proved here.
#[verifier::external_body]
pub(crate) fn escape_markup(raw: &[u8]) -> (r: Vec<u8>)
    ensures
        r@ == escaped(raw@),
{
    quick_xml::escape::escape(raw).into_owned()
}

} // verus!
