use vstd::prelude::*;

verus! {

/// A monotonically increasing logical timestamp assigned by the writer of an
/// entry; a larger sequence number means a newer version of the same key.
pub type SequenceNumber = u64;

/// The kind of mutation an entry records: a live value, or a deletion marker
/// (a tombstone) that makes the key logically absent as of the entry's
/// sequence number.
#[derive(Clone, Copy, PartialEq, Eq, Structural, Debug)]
pub enum ValueType {
    TypeValue,
    TypeDeletion,
}

impl ValueType {
    /// The stable numeric code packed into the low byte of an entry's tag.
    /// `TypeValue`'s code is kept numerically below `TypeDeletion`'s: a
    /// search key is always tagged `TypeValue`, so among entries with equal
    /// key and sequence number it sorts at-or-before any stored entry.
    pub open spec fn spec_code(self) -> u64 {
        match self {
            ValueType::TypeValue => 1,
            ValueType::TypeDeletion => 2,
        }
    }

    pub fn code(self) -> (c: u64)
        ensures
            c == self.spec_code(),
    {
        match self {
            ValueType::TypeValue => 1,
            ValueType::TypeDeletion => 2,
        }
    }
}

/// The outcome a lookup can fail with. The only failure this layer knows is
/// that a key is absent: never written, or deleted at or before the
/// requested version.
#[derive(Clone, Copy, PartialEq, Eq, Structural, Debug)]
pub enum Status {
    NotFound,
}

} // verus!
