//! The entry codec's specification: the exact byte layout of an encoded
//! entry and of an encoded search key, and the spec-level parser that reads
//! the fields back. The executable encoder and parser live on `MemTable`;
//! their contracts are stated over these functions.

use vstd::prelude::*;
use crate::encoding::{spec_varint, spec_varint_decode, le_bytes, le_value, lemma_varint_decode_prefix, lemma_le_bytes_len, lemma_le_value_bytes_u64};
use crate::types::{SequenceNumber, ValueType};

verus! {

/// The tag packed into every entry: the sequence number shifted up one
/// byte, with the mutation type's code in the low byte.
pub open spec fn spec_tag(seq: SequenceNumber, t: ValueType) -> u64 {
    (seq << 8) | t.spec_code()
}

/// The full encoded entry stored as the sort key of the table:
/// `[key_length varint][key][tag: 8 bytes little-endian][value_length varint][value]`.
pub open spec fn spec_entry(key: Seq<u8>, value: Seq<u8>, t: ValueType, seq: SequenceNumber) -> Seq<u8> {
    spec_varint(key.len()) + key + le_bytes(spec_tag(seq, t) as nat, 8) + spec_varint(value.len())
        + value
}

/// The encoded search key used to position a seek: the same prefix as an
/// entry up through the tag, with no value payload, always tagged
/// `TypeValue`.
pub open spec fn spec_lookup(key: Seq<u8>, seq: SequenceNumber) -> Seq<u8> {
    spec_varint(key.len()) + key + le_bytes(spec_tag(seq, ValueType::TypeValue) as nat, 8)
}

/// Whether a byte string is the encoding of some entry.
pub open spec fn is_entry(b: Seq<u8>) -> bool {
    exists|key: Seq<u8>, value: Seq<u8>, t: ValueType, seq: SequenceNumber|
        b == #[trigger] spec_entry(key, value, t, seq)
}

/// Whether a byte string is the encoding of some search key.
pub open spec fn is_lookup(b: Seq<u8>) -> bool {
    exists|key: Seq<u8>, seq: SequenceNumber| b == #[trigger] spec_lookup(key, seq)
}

/// Reading the fields back out of an encoded buffer: the key, the tag, the
/// declared value length, and the value bytes (all bytes after the value
/// length). A buffer that ends right after the key bytes yields tag zero;
/// one that ends right after the tag (a search key) yields an empty value.
pub open spec fn spec_parse(b: Seq<u8>) -> Option<(Seq<u8>, u64, nat, Seq<u8>)> {
    match spec_varint_decode(b) {
        None => None,
        Some((klen, i)) => {
            if b.len() < i + klen {
                None
            } else {
                let key = b.subrange(i as int, (i + klen) as int);
                if b.len() == i + klen {
                    Some((key, 0, 0, Seq::empty()))
                } else if b.len() < i + klen + 8 {
                    None
                } else {
                    let tag = le_value(b.subrange((i + klen) as int, (i + klen + 8) as int)) as u64;
                    let j = i + klen + 8;
                    if b.len() == j {
                        Some((key, tag, 0, Seq::empty()))
                    } else {
                        match spec_varint_decode(b.subrange(j as int, b.len() as int)) {
                            None => None,
                            Some((vlen, m)) => Some(
                                (key, tag, vlen, b.subrange((j + m) as int, b.len() as int)),
                            ),
                        }
                    }
                }
            }
        },
    }
}

pub open spec fn parsed_key(b: Seq<u8>) -> Seq<u8> {
    spec_parse(b).unwrap().0
}

pub open spec fn parsed_tag(b: Seq<u8>) -> u64 {
    spec_parse(b).unwrap().1
}

pub open spec fn parsed_vallen(b: Seq<u8>) -> nat {
    spec_parse(b).unwrap().2
}

pub open spec fn parsed_val(b: Seq<u8>) -> Seq<u8> {
    spec_parse(b).unwrap().3
}

/// Whether an encoded buffer carries a live value rather than a tombstone:
/// the low byte of its tag is `TypeValue`'s code.
pub open spec fn is_value_entry(b: Seq<u8>) -> bool {
    parsed_tag(b) & 0xff == ValueType::TypeValue.spec_code()
}

/// The low byte of a tag is exactly the mutation type's code.
pub proof fn lemma_tag_low_byte(s: u64, c: u64)
    requires
        c < 256,
    ensures
        ((s << 8) | c) & 0xff == c,
{
    assert(((s << 8) | c) & 0xff == c) by (bit_vector)
        requires
            c < 256,
    ;
}

/// Round trip: parsing the encoding of any entry yields exactly the fields
/// it was built from — the key, the tag `(sequence_number << 8) | type`,
/// the value's length and the value.
pub proof fn lemma_parse_entry(key: Seq<u8>, value: Seq<u8>, t: ValueType, seq: SequenceNumber)
    ensures
        spec_parse(spec_entry(key, value, t, seq)) == Some(
            (key, spec_tag(seq, t), value.len(), value),
        ),
{
    let tag = spec_tag(seq, t);
    let kv = spec_varint(key.len());
    let tb = le_bytes(tag as nat, 8);
    let vv = spec_varint(value.len());
    let b = spec_entry(key, value, t, seq);
    lemma_le_bytes_len(tag as nat, 8);
    let rest1 = key + tb + vv + value;
    assert(b =~= kv + rest1);
    lemma_varint_decode_prefix(key.len(), rest1);
    let i = kv.len();
    let klen = key.len();
    assert(b.len() == i + klen + 8 + vv.len() + value.len());
    assert(b.subrange(i as int, (i + klen) as int) =~= key);
    assert(vv.len() >= 1);
    assert(b.subrange((i + klen) as int, (i + klen + 8) as int) =~= tb);
    lemma_le_value_bytes_u64(tag);
    let j = i + klen + 8;
    assert(b.subrange(j as int, b.len() as int) =~= vv + value);
    lemma_varint_decode_prefix(value.len(), value);
    assert(b.subrange((j + vv.len()) as int, b.len() as int) =~= value);
}

/// Round trip for search keys: parsing an encoded search key yields its key,
/// a tag with type `TypeValue`, and no value.
pub proof fn lemma_parse_lookup(key: Seq<u8>, seq: SequenceNumber)
    ensures
        spec_parse(spec_lookup(key, seq)) == Some(
            (key, spec_tag(seq, ValueType::TypeValue), 0nat, Seq::<u8>::empty()),
        ),
{
    let tag = spec_tag(seq, ValueType::TypeValue);
    let kv = spec_varint(key.len());
    let tb = le_bytes(tag as nat, 8);
    let b = spec_lookup(key, seq);
    lemma_le_bytes_len(tag as nat, 8);
    let rest1 = key + tb;
    assert(b =~= kv + rest1);
    lemma_varint_decode_prefix(key.len(), rest1);
    let i = kv.len();
    let klen = key.len();
    assert(b.len() == i + klen + 8);
    assert(b.subrange(i as int, (i + klen) as int) =~= key);
    assert(b.subrange((i + klen) as int, (i + klen + 8) as int) =~= tb);
    lemma_le_value_bytes_u64(tag);
}

/// An encoded entry carries a live value exactly when it was built with
/// `TypeValue`.
pub proof fn lemma_entry_value_type(key: Seq<u8>, value: Seq<u8>, t: ValueType, seq: SequenceNumber)
    ensures
        is_value_entry(spec_entry(key, value, t, seq)) == (t == ValueType::TypeValue),
{
    lemma_parse_entry(key, value, t, seq);
    lemma_tag_low_byte(seq, t.spec_code());
}

} // verus!
