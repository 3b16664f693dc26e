use memtable::lookup_key::LookupKey;
use memtable::memtable::MemTable;
use memtable::types::{Status, ValueType};

fn get_memtable() -> MemTable {
    let mut mt = MemTable::new();
    let entries = vec![
        (120, "abc", "123"),
        (121, "abd", "124"),
        (122, "abe", "125"),
        (123, "abf", "126"),
    ];

    for e in entries.iter() {
        mt.add(
            e.0,
            ValueType::TypeValue,
            &e.1.as_bytes().to_vec(),
            &e.2.as_bytes().to_vec(),
        );
    }
    mt
}

#[test]
fn test_add() {
    let mut mt = MemTable::new();
    mt.add(
        123,
        ValueType::TypeValue,
        &"abc".as_bytes().to_vec(),
        &"123".as_bytes().to_vec(),
    );

    assert_eq!(
        mt.entry_at(0),
        &vec![3, 97, 98, 99, 1, 123, 0, 0, 0, 0, 0, 0, 3, 49, 50, 51]
    );
}

#[test]
fn test_add_get() {
    let mt = get_memtable();

    if let Result::Ok(v) = mt.get(&LookupKey::new(&"abc".as_bytes().to_vec(), 120)) {
        assert_eq!(v, "123".as_bytes().to_vec());
    } else {
        panic!("not found");
    }

    if let Result::Ok(v) = mt.get(&LookupKey::new(&"abe".as_bytes().to_vec(), 122)) {
        assert_eq!(v, "125".as_bytes().to_vec());
    } else {
        panic!("not found");
    }

    if let Result::Ok(_v) = mt.get(&LookupKey::new(&"abc".as_bytes().to_vec(), 124)) {
        panic!("found");
    }
}

#[test]
fn test_memtable_iterator() {
    let mt = get_memtable();
    let mut iter = mt.iter();

    assert!(!iter.valid());

    iter.next();
    assert!(iter.valid());
    assert_eq!(iter.current().0, vec![97, 98, 99]);
    assert_eq!(iter.current().1, vec![49, 50, 51]);

    iter.seek(&"abf".as_bytes().to_vec());
    assert_eq!(iter.current().0, vec![97, 98, 102]);
    assert_eq!(iter.current().1, vec![49, 50, 54]);
}

#[test]
fn test_parse_memtable_key() {
    let key = vec![3, 1, 2, 3, 1, 123, 0, 0, 0, 0, 0, 0, 3, 4, 5, 6];
    let (keylen, key, tag, vallen, val) = MemTable::parse_memtable_key(&key);
    assert_eq!(keylen, 3);
    assert_eq!(key, vec![1, 2, 3]);
    assert_eq!(tag, 123 << 8 | 1);
    assert_eq!(vallen, 3);
    assert_eq!(val, vec![4, 5, 6]);
}

#[test]
fn test_encode_decode_round_trip() {
    // A key long enough that its length prefix takes two varint bytes, so
    // the round trip exercises multi-byte varints and the full tag.
    let key: Vec<u8> = (0..130u32).map(|i| (i % 251) as u8).collect();
    let value = "payload".as_bytes().to_vec();
    let entry = MemTable::build_memtable_key(&key, &value, ValueType::TypeDeletion, 777);

    // 130 = 0x82: varint bytes [0x82, 0x01].
    assert_eq!(entry[0], 130);
    assert_eq!(entry[1], 1);
    assert_eq!(entry.len(), 2 + 130 + 8 + 1 + 7);

    let (keylen, dkey, tag, vallen, dval) = MemTable::parse_memtable_key(&entry);
    assert_eq!(keylen, 130);
    assert_eq!(dkey, key);
    assert_eq!(tag, 777 << 8 | 2);
    assert_eq!(vallen, 7);
    assert_eq!(dval, value);
}

#[test]
fn test_encoding_exact_bytes() {
    let entry = MemTable::build_memtable_key(
        &"abc".as_bytes().to_vec(),
        &"123".as_bytes().to_vec(),
        ValueType::TypeValue,
        123,
    );
    assert_eq!(
        entry,
        vec![3, 97, 98, 99, 1, 123, 0, 0, 0, 0, 0, 0, 3, 49, 50, 51]
    );
}

#[test]
fn test_lookup_key_layout() {
    let lk = LookupKey::new(&"abc".as_bytes().to_vec(), 123);
    assert_eq!(
        lk.memtable_key(),
        &vec![3, 97, 98, 99, 1, 123, 0, 0, 0, 0, 0, 0]
    );
    assert_eq!(lk.user_key(), vec![97, 98, 99]);
}

#[test]
fn test_insertion_order_independence() {
    let forward = [(120, "abc", "123"), (121, "abd", "124"), (122, "abe", "125"), (123, "abf", "126")];
    let mut shuffled = forward;
    shuffled.reverse();
    shuffled.swap(1, 2);

    let mut a = MemTable::new();
    for e in forward.iter() {
        a.add(e.0, ValueType::TypeValue, &e.1.as_bytes().to_vec(), &e.2.as_bytes().to_vec());
    }
    let mut b = MemTable::new();
    for e in shuffled.iter() {
        b.add(e.0, ValueType::TypeValue, &e.1.as_bytes().to_vec(), &e.2.as_bytes().to_vec());
    }

    assert_eq!(a.len(), 4);
    assert_eq!(b.len(), 4);
    for i in 0..4 {
        assert_eq!(a.entry_at(i), b.entry_at(i));
    }

    let mut iter = b.iter();
    let mut keys: Vec<Vec<u8>> = Vec::new();
    while let Some((k, _v)) = iter.next() {
        keys.push(k);
    }
    assert_eq!(
        keys,
        vec![
            "abc".as_bytes().to_vec(),
            "abd".as_bytes().to_vec(),
            "abe".as_bytes().to_vec(),
            "abf".as_bytes().to_vec()
        ]
    );
}

#[test]
fn test_tombstone_suppressed_on_iteration() {
    let mut mt = MemTable::new();
    mt.add(
        1,
        ValueType::TypeValue,
        &"k".as_bytes().to_vec(),
        &"v1".as_bytes().to_vec(),
    );
    mt.add(
        2,
        ValueType::TypeDeletion,
        &"k".as_bytes().to_vec(),
        &"".as_bytes().to_vec(),
    );

    let mut iter = mt.iter();
    let mut count = 0;
    let mut yielded: Vec<(Vec<u8>, Vec<u8>)> = Vec::new();
    while let Some(kv) = iter.next() {
        count += 1;
        yielded.push(kv);
    }
    // The tombstone itself is never yielded: only the live write comes out.
    assert_eq!(count, 1);
    assert_eq!(yielded[0].0, "k".as_bytes().to_vec());
    assert_eq!(yielded[0].1, "v1".as_bytes().to_vec());
}

#[test]
fn test_get_deleted_key_not_found() {
    let mut mt = MemTable::new();
    mt.add(
        1,
        ValueType::TypeValue,
        &"k".as_bytes().to_vec(),
        &"v".as_bytes().to_vec(),
    );
    mt.add(
        2,
        ValueType::TypeDeletion,
        &"k".as_bytes().to_vec(),
        &"".as_bytes().to_vec(),
    );

    let r = mt.get(&LookupKey::new(&"k".as_bytes().to_vec(), 2));
    assert!(matches!(r, Err(Status::NotFound)));
}

#[test]
fn test_get_never_written_not_found() {
    let mt = get_memtable();
    let r = mt.get(&LookupKey::new(&"zzz".as_bytes().to_vec(), 200));
    assert!(matches!(r, Err(Status::NotFound)));
}

#[test]
fn test_seek_missing_key() {
    let mt = get_memtable();
    let mut iter = mt.iter();

    iter.seek(&"abf".as_bytes().to_vec());
    assert!(iter.valid());
    assert_eq!(iter.current().0, vec![97, 98, 102]);
    assert_eq!(iter.current().1, vec![49, 50, 54]);

    // A missing key of the same length as its neighbours: the cursor lands
    // on the first entry at or after it.
    let mut mt2 = MemTable::new();
    mt2.add(
        1,
        ValueType::TypeValue,
        &"aa".as_bytes().to_vec(),
        &"1".as_bytes().to_vec(),
    );
    mt2.add(
        2,
        ValueType::TypeValue,
        &"ac".as_bytes().to_vec(),
        &"3".as_bytes().to_vec(),
    );
    let mut it2 = mt2.iter();
    it2.seek(&"ab".as_bytes().to_vec());
    assert!(it2.valid());
    assert_eq!(it2.current().0, "ac".as_bytes().to_vec());
}

#[test]
fn test_approx_mem_usage_grows() {
    let mut mt = MemTable::new();
    assert_eq!(mt.approx_mem_usage(), 0);
    mt.add(
        123,
        ValueType::TypeValue,
        &"abc".as_bytes().to_vec(),
        &"123".as_bytes().to_vec(),
    );
    // One entry: 1 length byte + 3 key bytes + 8 tag bytes + 1 length byte
    // + 3 value bytes.
    assert_eq!(mt.approx_mem_usage(), 16);
    let before = mt.approx_mem_usage();
    mt.add(
        124,
        ValueType::TypeValue,
        &"abd".as_bytes().to_vec(),
        &"124".as_bytes().to_vec(),
    );
    assert!(mt.approx_mem_usage() >= before);
    assert_eq!(mt.approx_mem_usage(), 32);
}

#[test]
fn test_new_custom_cmp() {
    let mut mt = MemTable::new_custom_cmp(memtable::order::StandardComparator);
    mt.add(
        5,
        ValueType::TypeValue,
        &"a".as_bytes().to_vec(),
        &"b".as_bytes().to_vec(),
    );
    assert_eq!(mt.len(), 1);
    if let Ok(v) = mt.get(&LookupKey::new(&"a".as_bytes().to_vec(), 5)) {
        assert_eq!(v, "b".as_bytes().to_vec());
    } else {
        panic!("not found");
    }
}
