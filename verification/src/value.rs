//! The data model: internal values `(user_key, seqno, value_type, value)`
//! and their total order `(user_key ascending, seqno descending)`.

use vstd::prelude::*;

use crate::bytes_util::lex_lt;

verus! {

/// Kind of an entry: a live value or a point-delete marker.
#[derive(Clone, Copy, Debug, PartialEq, Eq)]
pub enum ValueType {
    /// A regular value.
    Value,
    /// A tombstone: marks the key as deleted at this sequence number.
    Tombstone,
}

impl ValueType {
    /// The tag byte this kind is written as: `0 = value, 1 = tombstone`.
    pub open spec fn spec_tag(self) -> u8 {
        match self {
            ValueType::Value => 0u8,
            ValueType::Tombstone => 1u8,
        }
    }

    /// Returns the tag byte.
    pub fn tag(&self) -> (r: u8)
        ensures
            r == self.spec_tag(),
    {
        match self {
            ValueType::Value => 0,
            ValueType::Tombstone => 1,
        }
    }

    /// The kind a tag byte denotes, if any.
    pub fn from_tag(tag: u8) -> (r: Option<ValueType>)
        ensures
            r == spec_vt_from_tag(tag),
    {
        match tag {
            0 => Some(ValueType::Value),
            1 => Some(ValueType::Tombstone),
            _ => None,
        }
    }
}

/// The kind a tag byte denotes, if any.
pub open spec fn spec_vt_from_tag(tag: u8) -> Option<ValueType> {
    if tag == 0 {
        Some(ValueType::Value)
    } else if tag == 1 {
        Some(ValueType::Tombstone)
    } else {
        None
    }
}

/// The mathematical shape of an entry: byte strings for key and value, a
/// sequence number and a kind.
#[verifier::ext_equal]
pub struct EntrySpec {
    /// The user key.
    pub key: Seq<u8>,
    /// The sequence number.
    pub seqno: u64,
    /// Value or tombstone.
    pub value_type: ValueType,
    /// The user value.
    pub value: Seq<u8>,
}

/// An internal value: the sort key `(user_key, seqno, value_type)` paired
/// with the user value.
#[derive(Clone, Debug, PartialEq, Eq)]
pub struct InternalValue {
    /// The user key; opaque bytes, between 1 and 65535 of them.
    pub user_key: Vec<u8>,
    /// The sequence number assigned at write time.
    pub seqno: u64,
    /// Value or tombstone.
    pub value_type: ValueType,
    /// The user value; opaque bytes.
    pub value: Vec<u8>,
}

impl View for InternalValue {
    type V = EntrySpec;

    open spec fn view(&self) -> EntrySpec {
        EntrySpec {
            key: self.user_key@,
            seqno: self.seqno,
            value_type: self.value_type,
            value: self.value@,
        }
    }
}

impl InternalValue {
    /// Builds an entry from its four components.
    pub fn from_components(user_key: Vec<u8>, value: Vec<u8>, seqno: u64, value_type: ValueType) -> (
    r: InternalValue)
        ensures
            r@.key == user_key@,
            r@.value == value@,
            r@.seqno == seqno,
            r@.value_type == value_type,
    {
        InternalValue { user_key, seqno, value_type, value }
    }
}

/// An entry the segment format can hold: a nonempty key of at most 65535
/// bytes and a value of at most `u32::MAX` bytes.
pub open spec fn spec_entry_wf(e: EntrySpec) -> bool {
    &&& 1 <= e.key.len() <= 65535
    &&& e.value.len() <= u32::MAX
}

/// The segment order: `a` sorts strictly before `b` when its key is
/// smaller, or the keys are equal and its sequence number is larger (newest
/// version of a key first).
pub open spec fn spec_entry_lt(a: EntrySpec, b: EntrySpec) -> bool {
    lex_lt(a.key, b.key) || (a.key == b.key && a.seqno > b.seqno)
}

/// A strictly ascending run of entries, stated over adjacent pairs.
pub open spec fn spec_entries_sorted(es: Seq<EntrySpec>) -> bool {
    forall|i: int| 0 <= i < es.len() - 1 ==> spec_entry_lt(#[trigger] es[i], es[i + 1])
}

/// The segment order is transitive.
pub proof fn lemma_entry_lt_trans(a: EntrySpec, b: EntrySpec, c: EntrySpec)
    requires
        spec_entry_lt(a, b),
        spec_entry_lt(b, c),
    ensures
        spec_entry_lt(a, c),
{
    if lex_lt(a.key, b.key) && lex_lt(b.key, c.key) {
        crate::bytes_util::lemma_lex_trans(a.key, b.key, c.key);
    }
}

/// In a sorted run, every earlier entry sorts strictly before every later
/// one, not only its neighbour.
pub proof fn lemma_entries_sorted_total(es: Seq<EntrySpec>, i: int, j: int)
    requires
        spec_entries_sorted(es),
        0 <= i < j < es.len(),
    ensures
        spec_entry_lt(es[i], es[j]),
    decreases j - i,
{
    if i + 1 == j {
    } else {
        lemma_entries_sorted_total(es, i + 1, j);
        lemma_entry_lt_trans(es[i], es[i + 1], es[j]);
    }
}

/// The views of a run of entries.
pub open spec fn views_of_entries(es: Seq<InternalValue>) -> Seq<EntrySpec> {
    Seq::new(es.len(), |i: int| es[i]@)
}

/// Compares two entries in the segment order.
pub fn entry_lt(a: &InternalValue, b: &InternalValue) -> (r: bool)
    ensures
        r == spec_entry_lt(a@, b@),
{
    if crate::bytes_util::bytes_lt(a.user_key.as_slice(), b.user_key.as_slice()) {
        true
    } else if crate::bytes_util::bytes_eq(a.user_key.as_slice(), b.user_key.as_slice()) {
        a.seqno > b.seqno
    } else {
        false
    }
}

impl InternalValue {
    /// Returns a fresh entry with the same components.
    pub fn duplicate(&self) -> (r: InternalValue)
        ensures
            r@ == self@,
    {
        let r = InternalValue {
            user_key: crate::bytes_util::copy_range(self.user_key.as_slice(), 0, self.user_key.len()),
            seqno: self.seqno,
            value_type: self.value_type,
            value: crate::bytes_util::copy_range(self.value.as_slice(), 0, self.value.len()),
        };
        proof {
            assert(r.user_key@ =~= self.user_key@);
            assert(r.value@ =~= self.value@);
        }
        r
    }
}

} // verus!
