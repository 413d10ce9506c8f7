//! The attribute table of a node: a map from names to values whose entries are
//! kept, and handed out, in ascending order of their names.

use vstd::prelude::*;
use crate::bytes::{
    bytes_equal, bytes_less, copy_bytes, lemma_lex_irreflexive, lemma_lex_total,
    lemma_lex_transitive, lex_less,
};

verus! {

/// The mathematical content of an attribute table: its `(name, value)` pairs
/// in the order in which they are enumerated.
pub type Entries = Seq<(Seq<u8>, Seq<u8>)>;

/// The names ascend strictly, so no name occurs twice.
pub open spec fn keys_ascending(s: Entries) -> bool {
    forall|i: int, j: int| #![trigger s[i], s[j]] 0 <= i < j < s.len() ==> lex_less(s[i].0, s[j].0)
}

/// The index of the first entry whose name is not below `key`: where `key`
/// stands if it is present, and where it belongs if it is not.
pub open spec fn slot(s: Entries, key: Seq<u8>) -> int
    decreases s.len(),
{
    if s.len() == 0 || !lex_less(s[0].0, key) {
        0
    } else {
        1 + slot(s.drop_first(), key)
    }
}

/// Whether an entry named `key` is present.
pub open spec fn has_key(s: Entries, key: Seq<u8>) -> bool {
    slot(s, key) < s.len() && s[slot(s, key)].0 == key
}

/// The value stored under `key`, if any.
pub open spec fn lookup(s: Entries, key: Seq<u8>) -> Option<Seq<u8>> {
    if has_key(s, key) {
        Some(s[slot(s, key)].1)
    } else {
        None
    }
}

/// The table after `key` has been set to `value`.
pub open spec fn with_entry(s: Entries, key: Seq<u8>, value: Seq<u8>) -> Entries {
    if has_key(s, key) {
        s.update(slot(s, key), (key, value))
    } else {
        s.insert(slot(s, key), (key, value))
    }
}

/// The table after `key` has been deleted.
pub open spec fn without_entry(s: Entries, key: Seq<u8>) -> Entries {
    if has_key(s, key) {
        s.remove(slot(s, key))
    } else {
        s
    }
}

/// What `slot` finds: every entry before it is below `key`, and the entry at
/// it, if there is one, is not.
pub proof fn lemma_slot(s: Entries, key: Seq<u8>)
    ensures
        0 <= slot(s, key) <= s.len(),
        forall|j: int| 0 <= j < slot(s, key) ==> lex_less(#[trigger] s[j].0, key),
        slot(s, key) < s.len() ==> !lex_less(s[slot(s, key)].0, key),
    decreases s.len(),
{
    if s.len() == 0 || !lex_less(s[0].0, key) {
    } else {
        let t = s.drop_first();
        lemma_slot(t, key);
        assert forall|j: int| 0 <= j < slot(s, key) implies lex_less(#[trigger] s[j].0, key) by {
            if j > 0 {
                assert(s[j] == t[j - 1]);
            }
        }
        if slot(s, key) < s.len() {
            assert(s[slot(s, key)] == t[slot(t, key)]);
        }
    }
}

/// An index with the two properties of `lemma_slot` is the slot.
pub proof fn lemma_slot_is(s: Entries, key: Seq<u8>, i: int)
    requires
        0 <= i <= s.len(),
        forall|j: int| 0 <= j < i ==> lex_less(#[trigger] s[j].0, key),
        i < s.len() ==> !lex_less(s[i].0, key),
    ensures
        slot(s, key) == i,
    decreases s.len(),
{
    if i > 0 {
        let t = s.drop_first();
        assert(lex_less(s[0].0, key));
        assert forall|j: int| 0 <= j < i - 1 implies lex_less(#[trigger] t[j].0, key) by {
            assert(t[j] == s[j + 1]);
        }
        if i - 1 < t.len() {
            assert(t[i - 1] == s[i]);
        }
        lemma_slot_is(t, key, i - 1);
    }
}

/// In an ascending table every entry is found under its own name.
pub proof fn lemma_lookup_at(s: Entries, i: int)
    requires
        keys_ascending(s),
        0 <= i < s.len(),
    ensures
        slot(s, s[i].0) == i,
        has_key(s, s[i].0),
        lookup(s, s[i].0) == Some(s[i].1),
{
    lemma_lex_irreflexive(s[i].0);
    lemma_slot_is(s, s[i].0, i);
}

/// Attribute names are unique: two entries of an ascending table that carry
/// the same name are one entry.
pub proof fn lemma_keys_unique(s: Entries, i: int, j: int)
    requires
        keys_ascending(s),
        0 <= i < s.len(),
        0 <= j < s.len(),
        s[i].0 == s[j].0,
    ensures
        i == j,
{
    lemma_lex_irreflexive(s[i].0);
}

/// In an ascending table, every entry past the slot of `key` lies above
/// `key`, and so does the one at the slot unless it is named `key`.
pub proof fn lemma_above_slot(s: Entries, key: Seq<u8>, j: int)
    requires
        keys_ascending(s),
        slot(s, key) <= j < s.len(),
        j > slot(s, key) || s[j].0 != key,
    ensures
        lex_less(key, s[j].0),
{
    lemma_slot(s, key);
    let p = slot(s, key);
    lemma_lex_total(s[p].0, key);
    if j > p {
        if s[p].0 != key {
            lemma_lex_transitive(key, s[p].0, s[j].0);
        }
    }
}

/// Setting an entry keeps the names ascending.
pub proof fn lemma_with_entry_ascending(s: Entries, key: Seq<u8>, value: Seq<u8>)
    requires
        keys_ascending(s),
    ensures
        keys_ascending(with_entry(s, key, value)),
{
    lemma_slot(s, key);
    let p = slot(s, key);
    let t = with_entry(s, key, value);
    assert forall|i: int, j: int| #![trigger t[i], t[j]] 0 <= i < j < t.len() implies lex_less(
        t[i].0,
        t[j].0,
    ) by {
        if has_key(s, key) {
            assert(t[i].0 == s[i].0);
            assert(t[j].0 == s[j].0);
        } else {
            if j < p {
                assert(t[i] == s[i] && t[j] == s[j]);
            } else if j == p {
                assert(t[i] == s[i]);
            } else if i < p {
                assert(t[i] == s[i] && t[j] == s[j - 1]);
            } else if i == p {
                assert(t[j] == s[j - 1]);
                lemma_above_slot(s, key, j - 1);
            } else {
                assert(t[i] == s[i - 1] && t[j] == s[j - 1]);
            }
        }
    }
}

/// Deleting an entry keeps the names ascending.
pub proof fn lemma_without_entry_ascending(s: Entries, key: Seq<u8>)
    requires
        keys_ascending(s),
    ensures
        keys_ascending(without_entry(s, key)),
{
    lemma_slot(s, key);
    let p = slot(s, key);
    let t = without_entry(s, key);
    assert forall|i: int, j: int| #![trigger t[i], t[j]] 0 <= i < j < t.len() implies lex_less(
        t[i].0,
        t[j].0,
    ) by {
        if has_key(s, key) {
            let si = if i < p { i } else { i + 1 };
            let sj = if j < p { j } else { j + 1 };
            assert(t[i] == s[si] && t[j] == s[sj]);
        }
    }
}

/// After `key` has been set to `value`, a lookup of `key` yields `value` and a
/// lookup of any other name yields what it yielded before.
pub proof fn lemma_lookup_with_entry(s: Entries, key: Seq<u8>, value: Seq<u8>, other: Seq<u8>)
    requires
        keys_ascending(s),
    ensures
        lookup(with_entry(s, key, value), other) == if other == key {
            Some(value)
        } else {
            lookup(s, other)
        },
{
    lemma_slot(s, key);
    lemma_slot(s, other);
    lemma_with_entry_ascending(s, key, value);
    let p = slot(s, key);
    let t = with_entry(s, key, value);
    lemma_slot(t, other);
    let shifted = !has_key(s, key);
    if other == key {
        assert(t[p] == (key, value));
        lemma_lookup_at(t, p);
    } else if has_key(s, other) {
        let q = slot(s, other);
        let tq = if shifted && q >= p { q + 1 } else { q };
        assert(t[tq] == s[q]);
        lemma_lookup_at(t, tq);
    } else if has_key(t, other) {
        let tq = slot(t, other);
        assert(tq != p);
        let q = if shifted && tq > p { tq - 1 } else { tq };
        assert(s[q] == t[tq]);
        lemma_lookup_at(s, q);
    }
}

/// After `key` has been deleted, a lookup of `key` finds nothing and a lookup
/// of any other name yields what it yielded before.
pub proof fn lemma_lookup_without_entry(s: Entries, key: Seq<u8>, other: Seq<u8>)
    requires
        keys_ascending(s),
    ensures
        lookup(without_entry(s, key), other) == if other == key {
            None
        } else {
            lookup(s, other)
        },
{
    lemma_slot(s, key);
    lemma_slot(s, other);
    lemma_without_entry_ascending(s, key);
    let p = slot(s, key);
    let t = without_entry(s, key);
    lemma_slot(t, other);
    if has_key(s, key) {
        if has_key(t, other) {
            let tq = slot(t, other);
            let q = if tq < p { tq } else { tq + 1 };
            assert(s[q] == t[tq]);
            lemma_lookup_at(s, q);
            if other == key {
                lemma_keys_unique(s, p, q);
            }
        } else if other != key && has_key(s, other) {
            let q = slot(s, other);
            let tq = if q < p { q } else { q - 1 };
            assert(t[tq] == s[q]);
            lemma_lookup_at(t, tq);
        }
    }
}

/// An attribute table.
pub struct AttributeTable {
    entries: Vec<(Vec<u8>, Vec<u8>)>,
}

impl View for AttributeTable {
    type V = Entries;

    closed spec fn view(&self) -> Entries {
        Seq::new(self.entries@.len(), |i: int| (self.entries@[i].0@, self.entries@[i].1@))
    }
}

impl AttributeTable {
    /// The table's invariant: its names ascend strictly.
    pub open spec fn wf(&self) -> bool {
        keys_ascending(self@)
    }

    /// An empty table.
    pub fn new() -> (r: AttributeTable)
        ensures
            r@ == Entries::empty(),
            r.wf(),
    {
        let r = AttributeTable { entries: Vec::new() };
        assert(r@ =~= Entries::empty());
        r
    }

    /// The number of entries.
    pub fn len(&self) -> (r: usize)
        ensures
            r == self@.len(),
    {
        self.entries.len()
    }

    /// The name of the entry at `index`, counting in enumeration order.
    pub fn key_at(&self, index: usize) -> (r: &Vec<u8>)
        requires
            index < self@.len(),
        ensures
            r@ == self@[index as int].0,
    {
        &self.entries[index].0
    }

    /// The value of the entry at `index`, counting in enumeration order.
    pub fn value_at(&self, index: usize) -> (r: &Vec<u8>)
        requires
            index < self@.len(),
        ensures
            r@ == self@[index as int].1,
    {
        &self.entries[index].1
    }

    /// The position of `name`: the slot at which it stands or belongs.
    fn find(&self, name: &[u8]) -> (r: usize)
        ensures
            r == slot(self@, name@),
            r <= self.entries@.len(),
            self.entries@.len() == self@.len(),
    {
        let mut i: usize = 0;
        while i < self.entries.len() && bytes_less(self.entries[i].0.as_slice(), name)
            invariant
                i <= self@.len(),
                self@.len() == self.entries@.len(),
                forall|j: int| 0 <= j < i ==> lex_less(#[trigger] self@[j].0, name@),
            decreases self@.len() - i,
        {
            i += 1;
        }
        proof {
            lemma_slot_is(self@, name@, i as int);
        }
        i
    }

    /// The value stored under `name`, if any.
    pub fn get(&self, name: &[u8]) -> (r: Option<Vec<u8>>)
        ensures
            r is Some == lookup(self@, name@) is Some,
            r matches Some(v) ==> lookup(self@, name@) == Some(v@),
    {
        let i = self.find(name);
        if i < self.entries.len() && bytes_equal(self.entries[i].0.as_slice(), name) {
            Some(copy_bytes(self.entries[i].1.as_slice()))
        } else {
            None
        }
    }

    /// The names of all entries, in ascending order.
    pub fn keys(&self) -> (r: Vec<Vec<u8>>)
        ensures
            r@.len() == self@.len(),
            forall|i: int| 0 <= i < r@.len() ==> #[trigger] r@[i]@ == self@[i].0,
    {
        let mut out: Vec<Vec<u8>> = Vec::new();
        let mut i: usize = 0;
        while i < self.entries.len()
            invariant
                i <= self@.len(),
                self@.len() == self.entries@.len(),
                out@.len() == i,
                forall|j: int| 0 <= j < i ==> #[trigger] out@[j]@ == self@[j].0,
            decreases self@.len() - i,
        {
            out.push(copy_bytes(self.entries[i].0.as_slice()));
            i += 1;
        }
        out
    }

    /// Sets `name` to `value`: a new entry if `name` is absent, a new value
    /// for the existing entry if it is present.
    pub fn set(&mut self, name: Vec<u8>, value: Vec<u8>)
        requires
            old(self).wf(),
        ensures
            final(self)@ == with_entry(old(self)@, name@, value@),
            final(self).wf(),
    {
        let i = self.find(name.as_slice());
        let ghost before = self@;
        if i < self.entries.len() && bytes_equal(self.entries[i].0.as_slice(), name.as_slice()) {
            self.entries[i].1 = value;
        } else {
            self.entries.insert(i, (name, value));
        }
        proof {
            let after = with_entry(before, name@, value@);
            assert(self@.len() == after.len());
            assert forall|j: int| 0 <= j < after.len() implies self@[j] == after[j] by {
                if has_key(before, name@) {
                    if j != i {
                        assert(self@[j] == before[j]);
                    }
                } else {
                    if j < i {
                        assert(self@[j] == before[j]);
                    } else if j > i {
                        assert(self@[j] == before[j - 1]);
                    }
                }
            }
            assert(self@ =~= after);
            lemma_with_entry_ascending(before, name@, value@);
        }
    }

    /// Deletes the entry named `name`; nothing changes if there is none.
    pub fn delete(&mut self, name: &[u8])
        requires
            old(self).wf(),
        ensures
            final(self)@ == without_entry(old(self)@, name@),
            final(self).wf(),
    {
        let i = self.find(name);
        let ghost before = self@;
        if i < self.entries.len() && bytes_equal(self.entries[i].0.as_slice(), name) {
            self.entries.remove(i);
        }
        proof {
            let after = without_entry(before, name@);
            assert(self@.len() == after.len());
            assert forall|j: int| 0 <= j < after.len() implies self@[j] == after[j] by {
                if has_key(before, name@) {
                    if j < i {
                        assert(self@[j] == before[j]);
                    } else {
                        assert(self@[j] == before[j + 1]);
                    }
                }
            }
            assert(self@ =~= after);
            lemma_without_entry_ascending(before, name@);
        }
    }

    /// An independent copy of the table.
    pub fn duplicate(&self) -> (r: AttributeTable)
        ensures
            r@ == self@,
    {
        let mut entries: Vec<(Vec<u8>, Vec<u8>)> = Vec::new();
        let mut i: usize = 0;
        while i < self.entries.len()
            invariant
                i <= self.entries@.len(),
                entries@.len() == i,
                forall|j: int|
                    0 <= j < i ==> (#[trigger] entries@[j]).0@ == self.entries@[j].0@
                        && entries@[j].1@ == self.entries@[j].1@,
            decreases self.entries@.len() - i,
        {
            let key = copy_bytes(self.entries[i].0.as_slice());
            let value = copy_bytes(self.entries[i].1.as_slice());
            entries.push((key, value));
            i += 1;
        }
        let r = AttributeTable { entries };
        assert(r@ =~= self@);
        r
    }
}

} // verus!
