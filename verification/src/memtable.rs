//! The memtable itself: an ordered, versioned, append-only buffer of encoded
//! entries, with point lookup and a tombstone-filtering iterator. Entries
//! are held sorted by plain byte-wise lexicographic order of their full
//! encoded form, the order the standard comparator defines.

use vstd::prelude::*;
use crate::codec::{
    is_entry, is_lookup, is_value_entry, lemma_parse_entry, lemma_parse_lookup, parsed_key,
    parsed_tag, parsed_val, parsed_vallen, spec_entry, spec_lookup, spec_parse, spec_tag,
};
use crate::encoding::{
    append_bytes, fixed64_decode, fixed64_encode, le_bytes, lemma_le_bytes_len,
    lemma_varint_decode_prefix, spec_varint, varint_decode, varint_encode,
};
use crate::lookup_key::LookupKey;
use crate::order::{
    bytes_eq, lemma_lex_le_antisym, lemma_lex_le_total, lemma_lex_le_trans, lex_le,
    StandardComparator,
};
use crate::types::{SequenceNumber, Status, ValueType};
use vstd::slice::{slice_subrange, slice_to_vec};

verus! {

/// The byte strings a sequence of owned buffers holds.
pub open spec fn entry_views(s: Seq<Vec<u8>>) -> Seq<Seq<u8>> {
    Seq::new(s.len(), |i: int| s[i]@)
}

/// Sorted in byte-wise lexicographic order, duplicates allowed.
pub open spec fn sorted_entries(s: Seq<Seq<u8>>) -> bool {
    forall|i: int, j: int| 0 <= i <= j < s.len() ==> lex_le(#[trigger] s[i], #[trigger] s[j])
}

/// The position a seek lands on: the first index whose entry is at or after
/// `t` in byte-wise order, or the length if every entry is before `t`.
pub open spec fn spec_lower_bound(s: Seq<Seq<u8>>, t: Seq<u8>) -> int
    decreases s.len(),
{
    if s.len() == 0 {
        0
    } else if lex_le(t, s[0]) {
        0
    } else {
        1 + spec_lower_bound(s.drop_first(), t)
    }
}

/// The lower bound is in range, everything before it is strictly before `t`,
/// and the entry at it (if any) is at or after `t`.
pub proof fn lemma_lower_bound_props(s: Seq<Seq<u8>>, t: Seq<u8>)
    ensures
        0 <= spec_lower_bound(s, t) <= s.len(),
        forall|j: int| 0 <= j < spec_lower_bound(s, t) ==> !lex_le(t, #[trigger] s[j]),
        spec_lower_bound(s, t) < s.len() ==> lex_le(t, s[spec_lower_bound(s, t)]),
    decreases s.len(),
{
    if s.len() > 0 && !lex_le(t, s[0]) {
        lemma_lower_bound_props(s.drop_first(), t);
        let lb = spec_lower_bound(s, t);
        assert forall|j: int| 0 <= j < lb implies !lex_le(t, #[trigger] s[j]) by {
            if j > 0 {
                assert(s[j] == s.drop_first()[j - 1]);
            }
        }
        if lb < s.len() {
            assert(s[lb] == s.drop_first()[lb - 1]);
        }
    }
}

/// Any index with the lower bound's two properties is the lower bound.
pub proof fn lemma_lower_bound_unique(s: Seq<Seq<u8>>, t: Seq<u8>, i: int)
    requires
        0 <= i <= s.len(),
        forall|j: int| 0 <= j < i ==> !lex_le(t, #[trigger] s[j]),
        i < s.len() ==> lex_le(t, s[i]),
    ensures
        i == spec_lower_bound(s, t),
{
    lemma_lower_bound_props(s, t);
    let lb = spec_lower_bound(s, t);
    if i < lb {
        assert(!lex_le(t, s[i]));
    } else if lb < i {
        assert(!lex_le(t, s[lb]));
    }
}

/// A sorted sequence of entries is determined by the multiset of entries it
/// holds: sorting is a normal form.
pub proof fn lemma_sorted_unique(a: Seq<Seq<u8>>, b: Seq<Seq<u8>>)
    requires
        sorted_entries(a),
        sorted_entries(b),
        a.to_multiset() == b.to_multiset(),
    ensures
        a == b,
    decreases a.len(),
{
    vstd::seq_lib::to_multiset_len(a);
    vstd::seq_lib::to_multiset_len(b);
    if a.len() == 0 {
        assert(a =~= b);
    } else {
        assert(a[0] == b[0]) by {
            vstd::seq_lib::to_multiset_contains(a, a[0]);
            vstd::seq_lib::to_multiset_contains(b, a[0]);
            vstd::seq_lib::to_multiset_contains(a, b[0]);
            vstd::seq_lib::to_multiset_contains(b, b[0]);
            assert(a.contains(a[0]));
            assert(b.contains(b[0]));
            assert(b.contains(a[0]));
            assert(a.contains(b[0]));
            let j = choose|j: int| 0 <= j < b.len() && b[j] == a[0];
            let k = choose|k: int| 0 <= k < a.len() && a[k] == b[0];
            assert(lex_le(b[0], b[j]));
            assert(lex_le(a[0], a[k]));
            lemma_lex_le_antisym(a[0], b[0]);
        }
        let a1 = a.drop_first();
        let b1 = b.drop_first();
        assert(a.remove(0) =~= a1);
        assert(b.remove(0) =~= b1);
        vstd::seq_lib::to_multiset_remove(a, 0);
        vstd::seq_lib::to_multiset_remove(b, 0);
        assert(sorted_entries(a1)) by {
            assert forall|i: int, j: int| 0 <= i <= j < a1.len() implies lex_le(
                #[trigger] a1[i],
                #[trigger] a1[j],
            ) by {
                assert(a1[i] == a[i + 1]);
                assert(a1[j] == a[j + 1]);
            }
        }
        assert(sorted_entries(b1)) by {
            assert forall|i: int, j: int| 0 <= i <= j < b1.len() implies lex_le(
                #[trigger] b1[i],
                #[trigger] b1[j],
            ) by {
                assert(b1[i] == b[i + 1]);
                assert(b1[j] == b[j + 1]);
            }
        }
        lemma_sorted_unique(a1, b1);
        assert forall|i: int| 0 <= i < a.len() implies a[i] == b[i] by {
            if i > 0 {
                assert(a[i] == a1[i - 1]);
                assert(b[i] == b1[i - 1]);
            }
        }
        assert(a =~= b);
    }
}

/// Insertion order independence: a well-formed table's layout — and so the
/// order any scan yields its entries — depends only on which entries were
/// added, never on the order they were added in. Two well-formed tables
/// holding the same multiset of encoded entries are laid out identically.
pub proof fn lemma_insertion_order_independent(a: MemTable, b: MemTable)
    requires
        a.wf(),
        b.wf(),
        a@.to_multiset() == b@.to_multiset(),
    ensures
        a@ == b@,
{
    lemma_sorted_unique(a@, b@);
}

/// The in-memory mutation buffer. It owns the ordered collection of encoded
/// entries; every stored buffer is a well-formed encoded entry, kept in
/// byte-wise lexicographic order, and is never rewritten or removed.
pub struct MemTable {
    entries: Vec<Vec<u8>>,
    usage: usize,
    comparator: StandardComparator,
}

impl View for MemTable {
    type V = Seq<Seq<u8>>;

    closed spec fn view(&self) -> Seq<Seq<u8>> {
        entry_views(self.entries@)
    }
}

impl MemTable {
    /// A well-formed table holds only encoded entries, in sorted order.
    pub open spec fn wf(self) -> bool {
        &&& sorted_entries(self@)
        &&& forall|i: int| 0 <= i < self@.len() ==> is_entry(#[trigger] self@[i])
    }

    /// The table's running account of the memory its entries take.
    pub closed spec fn mem_usage(self) -> usize {
        self.usage
    }

    /// An empty table ordered by the standard byte-wise comparator.
    pub fn new() -> (r: MemTable)
        ensures
            r.wf(),
            r@ == Seq::<Seq<u8>>::empty(),
            r.mem_usage() == 0,
    {
        MemTable::new_custom_cmp(StandardComparator)
    }

    /// An empty table ordered by the given comparator.
    pub fn new_custom_cmp(comparator: StandardComparator) -> (r: MemTable)
        ensures
            r.wf(),
            r@ == Seq::<Seq<u8>>::empty(),
            r.mem_usage() == 0,
    {
        let r = MemTable { entries: Vec::new(), usage: 0, comparator };
        proof {
            assert(r@ =~= Seq::<Seq<u8>>::empty());
        }
        r
    }

    /// The table's approximate memory usage: the summed size of its encoded
    /// entries, saturating at the machine word. It never decreases within a
    /// table's lifetime.
    pub fn approx_mem_usage(&self) -> (n: usize)
        ensures
            n == self.mem_usage(),
    {
        self.usage
    }

    /// The number of entries the table holds.
    pub fn len(&self) -> (n: usize)
        ensures
            n == self@.len(),
    {
        self.entries.len()
    }

    /// The raw encoded entry at a position, in table order.
    pub fn entry_at<'a>(&'a self, i: usize) -> (r: &'a Vec<u8>)
        requires
            i < self@.len(),
        ensures
            r@ == self@[i as int],
    {
        &self.entries[i]
    }

    /// The first position whose entry is at or after `target`, by the
    /// table's comparator.
    fn lower_bound(&self, target: &Vec<u8>) -> (i: usize)
        ensures
            i as int == spec_lower_bound(self@, target@),
    {
        let n = self.entries.len();
        let mut i: usize = 0;
        while i < n
            invariant
                i <= n,
                n == self@.len(),
                forall|j: int| 0 <= j < i ==> !lex_le(target@, #[trigger] self@[j]),
            decreases n - i,
        {
            if self.comparator.le(target, &self.entries[i]) {
                proof {
                    lemma_lower_bound_unique(self@, target@, i as int);
                }
                return i;
            }
            i = i + 1;
        }
        proof {
            lemma_lower_bound_unique(self@, target@, i as int);
        }
        i
    }

    /// Encodes one entry in the stored layout:
    /// `[key_length varint][key][tag: 8 bytes][value_length varint][value]`,
    /// with the tag `(seq << 8) | type_code`. Encoding always succeeds.
    pub fn build_memtable_key(
        key: &Vec<u8>,
        value: &Vec<u8>,
        t: ValueType,
        seq: SequenceNumber,
    ) -> (r: Vec<u8>)
        ensures
            r@ == spec_entry(key@, value@, t, seq),
    {
        let mut buf = varint_encode(key.len());
        append_bytes(&mut buf, key);
        let tag: u64 = (seq << 8) | t.code();
        let mut tb = fixed64_encode(tag);
        buf.append(&mut tb);
        let mut vl = varint_encode(value.len());
        buf.append(&mut vl);
        append_bytes(&mut buf, value);
        proof {
            assert(buf@ =~= spec_entry(key@, value@, t, seq));
        }
        buf
    }

    /// Reads the fields back out of an encoded entry or encoded search key:
    /// `(key_length, key, tag, value_length, value)`. A search key, which
    /// ends right after its tag, yields value length zero and an empty
    /// value. Decoding a well-formed buffer never fails.
    #[verifier::rlimit(100)]
    pub fn parse_memtable_key(mkey: &Vec<u8>) -> (r: (usize, Vec<u8>, u64, usize, Vec<u8>))
        requires
            is_entry(mkey@) || is_lookup(mkey@),
        ensures
            spec_parse(mkey@) is Some,
            r.0 == parsed_key(mkey@).len(),
            r.1@ == parsed_key(mkey@),
            r.2 == parsed_tag(mkey@),
            r.3 == parsed_vallen(mkey@),
            r.4@ == parsed_val(mkey@),
    {
        let total = mkey.len();
        let ghost b = mkey@;
        proof {
            if is_entry(b) {
                let (k, v, t, s) = choose|k: Seq<u8>, v: Seq<u8>, t: ValueType, s: SequenceNumber|
                    b == spec_entry(k, v, t, s);
                lemma_parse_entry(k, v, t, s);
                lemma_le_bytes_len(spec_tag(s, t) as nat, 8);
                let rest = k + le_bytes(spec_tag(s, t) as nat, 8) + spec_varint(v.len()) + v;
                assert(b =~= spec_varint(((k.len() as usize) as nat)) + rest);
                lemma_varint_decode_prefix(k.len(), rest);
                let j = spec_varint(k.len()).len() + k.len() + 8;
                assert(b.subrange(j as int, b.len() as int) =~= spec_varint(
                    ((v.len() as usize) as nat),
                ) + v);
                lemma_varint_decode_prefix(v.len(), v);
            } else {
                let (k, s) = choose|k: Seq<u8>, s: SequenceNumber| b == spec_lookup(k, s);
                lemma_parse_lookup(k, s);
                lemma_le_bytes_len(spec_tag(s, ValueType::TypeValue) as nat, 8);
                let rest = k + le_bytes(spec_tag(s, ValueType::TypeValue) as nat, 8);
                assert(b =~= spec_varint(((k.len() as usize) as nat)) + rest);
                lemma_varint_decode_prefix(k.len(), rest);
            }
        }
        let parsed = varint_decode(mkey.as_slice());
        let (keylen, voff): (usize, usize) = match parsed {
            Some(p) => p,
            None => {
                proof {
                    assert(false);
                }
                (0, 0)
            },
        };
        let keyend = voff + keylen;
        let key = slice_to_vec(slice_subrange(mkey.as_slice(), voff, keyend));
        if total == keyend {
            return (keylen, key, 0, 0, Vec::new());
        }
        let tagread = fixed64_decode(slice_subrange(mkey.as_slice(), keyend, keyend + 8));
        let tag: u64 = match tagread {
            Some(v) => v,
            None => {
                proof {
                    assert(false);
                }
                0
            },
        };
        let j = keyend + 8;
        if total == j {
            return (keylen, key, tag, 0, Vec::new());
        }
        let vparsed = varint_decode(slice_subrange(mkey.as_slice(), j, total));
        let (vallen, m): (usize, usize) = match vparsed {
            Some(p) => p,
            None => {
                proof {
                    assert(false);
                }
                (0, 0)
            },
        };
        let val = slice_to_vec(slice_subrange(mkey.as_slice(), j + m, total));
        (keylen, key, tag, vallen, val)
    }

    /// Inserts one encoded entry for `(key, value, t, seq)` at its sorted
    /// position. Nothing is ever dropped or merged: the new table holds
    /// exactly the old entries plus the new one, and the memory account
    /// grows by the entry's size (saturating), never decreasing.
    pub fn add(&mut self, seq: SequenceNumber, t: ValueType, key: &Vec<u8>, value: &Vec<u8>)
        requires
            old(self).wf(),
        ensures
            final(self).wf(),
            final(self)@ == old(self)@.insert(
                spec_lower_bound(old(self)@, spec_entry(key@, value@, t, seq)),
                spec_entry(key@, value@, t, seq),
            ),
            final(self)@.to_multiset() == old(self)@.to_multiset().insert(
                spec_entry(key@, value@, t, seq),
            ),
            final(self).mem_usage() >= old(self).mem_usage(),
            final(self).mem_usage() == ({
                let total = old(self).mem_usage() + spec_entry(key@, value@, t, seq).len();
                if total <= usize::MAX {
                    total as usize
                } else {
                    usize::MAX
                }
            }),
    {
        let entry = Self::build_memtable_key(key, value, t, seq);
        let elen = entry.len();
        let pos = self.lower_bound(&entry);
        let ghost oldview = self@;
        let ghost e = entry@;
        proof {
            lemma_lower_bound_props(oldview, e);
        }
        self.entries.insert(pos, entry);
        if usize::MAX - self.usage >= elen {
            self.usage = self.usage + elen;
        } else {
            self.usage = usize::MAX;
        }
        proof {
            let lb = pos as int;
            assert(self@ =~= oldview.insert(lb, e));
            assert(is_entry(e)) by {
                assert(e == spec_entry(key@, value@, t, seq));
            }
            assert forall|i: int, j: int|
                0 <= i <= j < self@.len() implies lex_le(#[trigger] self@[i], #[trigger] self@[j]) by {
                if j < lb {
                    assert(self@[i] == oldview[i] && self@[j] == oldview[j]);
                } else if i > lb {
                    assert(self@[i] == oldview[i - 1] && self@[j] == oldview[j - 1]);
                } else if i < lb && j == lb {
                    assert(!lex_le(e, oldview[i]));
                    lemma_lex_le_total(e, oldview[i]);
                } else if i == lb && j == lb {
                    lemma_lex_le_total(e, e);
                } else if i == lb && j > lb {
                    assert(lex_le(e, oldview[lb]));
                    assert(lex_le(oldview[lb], oldview[j - 1]));
                    lemma_lex_le_trans(e, oldview[lb], oldview[j - 1]);
                } else {
                    assert(i < lb && j > lb);
                    assert(self@[i] == oldview[i] && self@[j] == oldview[j - 1]);
                }
            }
            vstd::seq_lib::to_multiset_insert(oldview, lb, e);
        }
    }

    /// Point lookup: seeks the first entry at or after the search key. The
    /// lookup succeeds exactly when that entry exists, its user key equals
    /// the search key's, and it is a live value; a tombstone there, a
    /// different key, or no entry at all surface alike as `NotFound`.
    pub fn get(&self, key: &LookupKey) -> (r: Result<Vec<u8>, Status>)
        requires
            self.wf(),
            key.wf(),
        ensures
            ({
                let lb = spec_lower_bound(self@, key.full_view());
                &&& r is Ok <==> lb < self@.len() && parsed_key(self@[lb]) == key.user_view()
                    && is_value_entry(self@[lb])
                &&& (r matches Ok(v) ==> v@ == parsed_val(self@[lb]))
                &&& (r is Err ==> r == Err::<Vec<u8>, Status>(Status::NotFound))
            }),
    {
        let mkey = key.memtable_key();
        let pos = self.lower_bound(mkey);
        proof {
            lemma_lower_bound_props(self@, key.full_view());
            key.lemma_wf_shape();
            assert(is_lookup(mkey@)) by {
                assert(mkey@ == spec_lookup(key.user_view(), key.seq_view()));
            }
            lemma_parse_lookup(key.user_view(), key.seq_view());
        }
        if pos < self.entries.len() {
            let found = &self.entries[pos];
            let (_lkeylen, lkey, _ltag, _lvallen, _lval) = Self::parse_memtable_key(mkey);
            let (_fkeylen, fkey, tag, _vallen, val) = Self::parse_memtable_key(found);
            if bytes_eq(&lkey, &fkey) {
                if tag & 0xff == ValueType::TypeValue.code() {
                    return Result::Ok(val);
                } else {
                    return Result::Err(Status::NotFound);
                }
            }
        }
        Result::Err(Status::NotFound)
    }

    /// A forward-only cursor over this table's entries, decoded and
    /// tombstone-filtered on advance. It starts unpositioned.
    pub fn iter<'a>(&'a self) -> (it: MemtableIterator<'a>)
        requires
            self.wf(),
        ensures
            it.inv(),
            it.entries() == self@,
            !it.placed_spec(),
    {
        MemtableIterator { table: self, pos: 0, placed: false }
    }
}

/// A forward-only cursor over a table's entries. `next` decodes entries in
/// table order and skips tombstones; `seek` repositions the cursor at the
/// first raw entry at or after a user key, without filtering the landing
/// position. The cursor never mutates the table.
pub struct MemtableIterator<'a> {
    table: &'a MemTable,
    pos: usize,
    placed: bool,
}

impl<'a> MemtableIterator<'a> {
    /// The encoded entries of the table this cursor walks.
    pub closed spec fn entries(self) -> Seq<Seq<u8>> {
        self.table@
    }

    /// The raw index the cursor stands on.
    pub closed spec fn pos_spec(self) -> int {
        self.pos as int
    }

    /// Whether the cursor has been positioned at all (by `next` or `seek`);
    /// a fresh cursor is unpositioned.
    pub closed spec fn placed_spec(self) -> bool {
        self.placed
    }

    /// Where the next advance starts scanning: at the front for a fresh
    /// cursor, right after the current position otherwise.
    pub open spec fn start_spec(self) -> int {
        if self.placed_spec() {
            self.pos_spec() + 1
        } else {
            0
        }
    }

    /// The cursor's invariant: its table is well-formed and its position
    /// never runs past the end.
    pub closed spec fn inv(self) -> bool {
        &&& self.table.wf()
        &&& self.pos <= self.table@.len()
        &&& (!self.placed ==> self.pos == 0)
    }

    /// Advances to the next live entry: tombstones are skipped, and the
    /// first `TypeValue` entry found is decoded and returned. Returns
    /// nothing once the table is exhausted.
    pub fn next(&mut self) -> (r: Option<(Vec<u8>, Vec<u8>)>)
        requires
            old(self).inv(),
        ensures
            final(self).inv(),
            final(self).entries() == old(self).entries(),
            final(self).placed_spec(),
            ({
                let es = old(self).entries();
                let start = old(self).start_spec();
                let landed = final(self).pos_spec();
                match r {
                    Option::Some(kv) => {
                        &&& start <= landed < es.len()
                        &&& is_value_entry(es[landed])
                        &&& kv.0@ == parsed_key(es[landed])
                        &&& kv.1@ == parsed_val(es[landed])
                        &&& forall|j: int|
                            start <= j < landed ==> !is_value_entry(#[trigger] es[j])
                    },
                    Option::None => {
                        &&& landed == es.len()
                        &&& forall|j: int|
                            start <= j < es.len() ==> !is_value_entry(#[trigger] es[j])
                    },
                }
            }),
    {
        let len = self.table.entries.len();
        let ghost es = self.table@;
        let mut i: usize;
        if self.placed {
            if self.pos >= len {
                self.pos = len;
                return Option::None;
            }
            i = self.pos + 1;
        } else {
            i = 0;
        }
        self.placed = true;
        while i < len
            invariant
                old(self).start_spec() <= i <= len,
                len == es.len(),
                self.table == old(self).table,
                self.table@ == es,
                self.table.wf(),
                self.placed,
                forall|j: int|
                    old(self).start_spec() <= j < i ==> !is_value_entry(#[trigger] es[j]),
            decreases len - i,
        {
            let e = &self.table.entries[i];
            proof {
                assert(is_entry(es[i as int]));
            }
            let (_keylen, ekey, tag, _vallen, eval) = MemTable::parse_memtable_key(e);
            if tag & 0xff == ValueType::TypeValue.code() {
                self.pos = i;
                return Option::Some((ekey, eval));
            }
            i = i + 1;
        }
        self.pos = len;
        Option::None
    }

    /// True exactly when the cursor stands on a raw entry.
    pub fn valid(&self) -> (r: bool)
        ensures
            r == (self.placed_spec() && self.pos_spec() < self.entries().len()),
    {
        self.placed && self.pos < self.table.entries.len()
    }

    /// The decoded `(key, value)` pair the cursor stands on. To be called
    /// only when the cursor is positioned on a live entry.
    pub fn current(&self) -> (r: (Vec<u8>, Vec<u8>))
        requires
            self.inv(),
            self.placed_spec(),
            self.pos_spec() < self.entries().len(),
            is_value_entry(self.entries()[self.pos_spec()]),
        ensures
            r.0@ == parsed_key(self.entries()[self.pos_spec()]),
            r.1@ == parsed_val(self.entries()[self.pos_spec()]),
    {
        let e = &self.table.entries[self.pos];
        proof {
            assert(is_entry(self.entries()[self.pos_spec()]));
        }
        let (_keylen, ekey, _tag, _vallen, eval) = MemTable::parse_memtable_key(e);
        (ekey, eval)
    }

    /// Repositions the cursor at the first raw entry at or after the search
    /// key built from `to` at sequence number zero. The landing entry is
    /// not tombstone-filtered.
    pub fn seek(&mut self, to: &Vec<u8>)
        requires
            old(self).inv(),
        ensures
            final(self).inv(),
            final(self).entries() == old(self).entries(),
            final(self).placed_spec(),
            final(self).pos_spec() == spec_lower_bound(
                old(self).entries(),
                spec_lookup(to@, 0),
            ),
    {
        let lk = LookupKey::new(to, 0);
        let pos = self.table.lower_bound(lk.memtable_key());
        proof {
            lemma_lower_bound_props(self.table@, spec_lookup(to@, 0));
        }
        self.pos = pos;
        self.placed = true;
    }
}

} // verus!
