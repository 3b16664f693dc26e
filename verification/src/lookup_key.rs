//! The search key ("lookup key") that positions a point lookup: the same
//! prefix layout as a stored entry up through the tag, with no value
//! payload. It is only used to seek the table and is never inserted.

use vstd::prelude::*;
use vstd::slice::{slice_subrange, slice_to_vec};
use crate::codec::{spec_lookup, spec_tag};
use crate::encoding::{
    append_bytes, fixed64_encode, lemma_le_bytes_len, spec_varint, varint_encode,
};
use crate::types::{SequenceNumber, ValueType};

verus! {

/// An encoded search key. The user key is a validated range of the same
/// buffer, not a separate copy.
pub struct LookupKey {
    key: Vec<u8>,
    key_offset: usize,
    user: Ghost<Seq<u8>>,
    seq: Ghost<SequenceNumber>,
}

impl LookupKey {
    /// The whole encoded search key, the byte string handed to a seek.
    pub closed spec fn full_view(self) -> Seq<u8> {
        self.key@
    }

    /// The user key this search key was built from.
    pub closed spec fn user_view(self) -> Seq<u8> {
        self.user@
    }

    /// The sequence number this search key was built from.
    pub closed spec fn seq_view(self) -> SequenceNumber {
        self.seq@
    }

    /// A well-formed search key holds exactly the encoded form of its user
    /// key and sequence number, and its recorded offset is where the user
    /// key's bytes start.
    pub closed spec fn wf(self) -> bool {
        &&& self.key@ == spec_lookup(self.user@, self.seq@)
        &&& self.key_offset == spec_varint(self.user@.len()).len()
    }

    /// A well-formed search key's buffer is the encoding of its user key
    /// and sequence number.
    pub proof fn lemma_wf_shape(self)
        requires
            self.wf(),
        ensures
            self.full_view() == spec_lookup(self.user_view(), self.seq_view()),
    {
    }

    /// Builds the search key for `k` at sequence number `s`. It is tagged
    /// `TypeValue`, the smaller mutation-type code, so it sorts at-or-before
    /// any stored entry with the same key and sequence number.
    pub fn new(k: &Vec<u8>, s: SequenceNumber) -> (r: LookupKey)
        ensures
            r.wf(),
            r.user_view() == k@,
            r.seq_view() == s,
            r.full_view() == spec_lookup(k@, s),
    {
        let mut key = varint_encode(k.len());
        let key_offset = key.len();
        append_bytes(&mut key, k);
        let tag: u64 = (s << 8) | ValueType::TypeValue.code();
        let mut tb = fixed64_encode(tag);
        key.append(&mut tb);
        proof {
            assert(key@ =~= spec_lookup(k@, s));
        }
        LookupKey { key, key_offset, user: Ghost(k@), seq: Ghost(s) }
    }

    /// The raw encoded buffer, for seeking.
    pub fn memtable_key<'a>(&'a self) -> (r: &'a Vec<u8>)
        ensures
            r@ == self.full_view(),
    {
        &self.key
    }

    /// The user key's bytes, copied out of the buffer's key range.
    pub fn user_key(&self) -> (r: Vec<u8>)
        requires
            self.wf(),
        ensures
            r@ == self.user_view(),
    {
        proof {
            lemma_le_bytes_len(spec_tag(self.seq@, ValueType::TypeValue) as nat, 8);
        }
        let end = self.key.len() - 8;
        let r = slice_to_vec(slice_subrange(self.key.as_slice(), self.key_offset, end));
        proof {
            assert(self.key@.subrange(self.key_offset as int, end as int) =~= self.user@);
        }
        r
    }
}

} // verus!
