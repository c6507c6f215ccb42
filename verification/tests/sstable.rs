use crackeddb::codec::{get_varint, put_varint};
use crackeddb::error::Error;
use crackeddb::memtable::{InternalKey, MemtableValue};
use crackeddb::sstable::{
    build_table, decode_internal_key, decode_value, encode_internal_key, encode_value,
    SSTableBuilder, SSTableConfig, SSTableReader,
};

fn b(s: &str) -> Vec<u8> {
    s.as_bytes().to_vec()
}

#[test]
fn build_and_read_sstable() {
    let mut builder = SSTableBuilder::new(SSTableConfig::default());

    for i in 0..100 {
        let key = InternalKey::new(b(&format!("key{:05}", i)), i as u64);
        let value = MemtableValue::Put(b(&format!("value{:05}", i)));
        builder.add(&key, &value).unwrap();
    }

    let (file, meta) = builder.finish(&[]);
    assert_eq!(meta.num_entries, 100);

    let reader = SSTableReader::open(&file).unwrap();

    let key = encode_internal_key(&InternalKey::new(b("key00050"), 50));
    let value = reader.get(&key).unwrap();
    assert!(value.is_some());
    let decoded = decode_value(&value.unwrap()).unwrap();
    assert_eq!(decoded, MemtableValue::Put(b("value00050")));

    let key = encode_internal_key(&InternalKey::new(b("nonexistent"), 0));
    assert!(reader.get(&key).unwrap().is_none());
}

#[test]
fn sstable_iteration() {
    let mut builder = SSTableBuilder::new(SSTableConfig::default());

    for i in 0..50 {
        let key = InternalKey::new(b(&format!("k{:03}", i)), i as u64);
        let value = MemtableValue::Put(b(&format!("v{:03}", i)));
        builder.add(&key, &value).unwrap();
    }

    let (file, _) = builder.finish(&[]);

    let reader = SSTableReader::open(&file).unwrap();
    let entries = reader.iter().unwrap();

    assert_eq!(entries.len(), 50);
    for (i, (key, _)) in entries.iter().enumerate() {
        let decoded = decode_internal_key(key).unwrap();
        assert_eq!(decoded.user_key, b(&format!("k{:03}", i)));
    }
}

#[test]
fn small_block_size() {
    let config = SSTableConfig { block_size: 128, ..SSTableConfig::default() };
    let mut builder = SSTableBuilder::new(config);

    for i in 0..100 {
        let key = InternalKey::new(b(&format!("key{:05}", i)), i as u64);
        let value = MemtableValue::Put(b(&format!("value{:05}", i)));
        builder.add(&key, &value).unwrap();
    }

    let (file, _) = builder.finish(&[]);

    let reader = SSTableReader::open(&file).unwrap();
    assert!(reader.block_count() > 1);
    let entries = reader.iter().unwrap();
    assert_eq!(entries.len(), 100);
}

#[test]
fn varint_encoding() {
    let test_values = [0u64, 1, 127, 128, 255, 256, 16383, 16384, u64::MAX];

    for &value in &test_values {
        let mut buf = Vec::new();
        put_varint(&mut buf, value);

        let (decoded, _) = get_varint(&buf).unwrap();
        assert_eq!(decoded, value);
    }
}

#[test]
fn prefix_compression() {
    let mut builder = SSTableBuilder::new(SSTableConfig::default());

    for i in 0..100 {
        let key = InternalKey::new(b(&format!("common_prefix_key_{:05}", i)), i as u64);
        let value = MemtableValue::Put(b("x"));
        builder.add(&key, &value).unwrap();
    }

    let (file, meta) = builder.finish(&[]);

    assert!(meta.file_size < 10000);

    let reader = SSTableReader::open(&file).unwrap();
    for i in 0..100 {
        let key = encode_internal_key(&InternalKey::new(
            b(&format!("common_prefix_key_{:05}", i)),
            i as u64,
        ));
        let value = reader.get(&key).unwrap();
        assert!(value.is_some());
    }
}

#[test]
fn mvcc_aware_lookup() {
    let mut builder = SSTableBuilder::new(SSTableConfig::default());

    for i in 0..100 {
        let key = InternalKey::new(b(&format!("key{:05}", i)), i as u64 + 1);
        let value = MemtableValue::Put(b(&format!("value{:05}", i)));
        builder.add(&key, &value).unwrap();
    }

    let (file, _) = builder.finish(&[]);

    let reader = SSTableReader::open(&file).unwrap();

    let value = reader.get_mvcc(b"key00050", 1000).unwrap();
    assert!(value.is_some(), "Should find key00050 with high target seq");
    let decoded = decode_value(&value.unwrap()).unwrap();
    assert_eq!(decoded, MemtableValue::Put(b("value00050")));

    let value = reader.get_mvcc(b"key00050", 51).unwrap();
    assert!(value.is_some(), "Should find key00050 with exact seq=51");

    let value = reader.get_mvcc(b"key00050", 50).unwrap();
    assert!(value.is_none(), "Should NOT find key00050 with seq=50 (entry has seq=51)");

    let value = reader.get_mvcc(b"nonexistent", 1000).unwrap();
    assert!(value.is_none(), "Should not find nonexistent key");
}

#[test]
fn mvcc_small_blocks() {
    let config = SSTableConfig { block_size: 128, ..SSTableConfig::default() };
    let mut builder = SSTableBuilder::new(config);

    for i in 0..100 {
        let key = InternalKey::new(b(&format!("key{:05}", i)), i as u64 + 1);
        let value = MemtableValue::Put(b(&format!("value{:05}", i)));
        builder.add(&key, &value).unwrap();
    }

    let (file, _) = builder.finish(&[]);

    let reader = SSTableReader::open(&file).unwrap();

    for i in [0, 25, 50, 75, 99] {
        let user_key = format!("key{:05}", i);
        let value = reader.get_mvcc(user_key.as_bytes(), 1000).unwrap();
        assert!(value.is_some(), "Should find {} with high target seq", user_key);
        let decoded = decode_value(&value.unwrap()).unwrap();
        assert_eq!(decoded, MemtableValue::Put(b(&format!("value{:05}", i))));
    }
}

#[test]
fn a_predicted_block_does_not_change_what_is_read() {
    let config = SSTableConfig { block_size: 64, ..SSTableConfig::default() };
    let mut builder = SSTableBuilder::new(config);
    for i in 0..1000 {
        let key = InternalKey::new(b(&format!("key{:05}", i)), i as u64);
        builder.add(&key, &MemtableValue::Put(b(&format!("value{:05}", i)))).unwrap();
    }
    let (file, _) = builder.finish(&[]);
    let reader = SSTableReader::open(&file).unwrap();
    for i in 0..1010u64 {
        let key = encode_internal_key(&InternalKey::new(b(&format!("key{:05}", i)), i));
        let plain = reader.get(&key).unwrap();
        assert_eq!(plain.is_some(), i < 1000);
        let at = (i as usize) / 3;
        for (lo, hi) in [(at.saturating_sub(64), at + 64), (0, 1), (900, 5000), (40, 3)] {
            assert_eq!(reader.get_predicted(&key, lo, hi).unwrap(), plain);
        }
    }
}

#[test]
fn keys_and_values_come_back_from_their_bytes() {
    for seq in [0u64, 1, 255, 256, u64::MAX - 1, u64::MAX] {
        for user in ["", "a", "key", "\u{0}\u{0}"] {
            let key = InternalKey::new(b(user), seq);
            let bytes = encode_internal_key(&key);
            let zeros = user.bytes().filter(|c| *c == 0).count();
            assert_eq!(bytes.len(), user.len() + zeros + 10);
            assert_eq!(decode_internal_key(&bytes), Some(key));
        }
    }
    // The number is turned round, so that newer versions come first.
    assert_eq!(
        encode_internal_key(&InternalKey::new(b("k"), 1)),
        vec![b'k', 0, 0, 0xFF, 0xFF, 0xFF, 0xFF, 0xFF, 0xFF, 0xFF, 0xFE]
    );
    // A zero byte is escaped.
    assert_eq!(
        encode_internal_key(&InternalKey::new(vec![1, 0, 2], u64::MAX)),
        vec![1, 0, 0xFF, 2, 0, 0, 0, 0, 0, 0, 0, 0, 0, 0]
    );
    assert_eq!(decode_internal_key(b"1234567"), None);
    assert_eq!(decode_internal_key(b"12345678901234567"), None);
    assert_eq!(decode_internal_key(&[1, 0, 7, 0, 0, 0, 0, 0, 0, 0, 0, 0]), None);

    assert_eq!(encode_value(&MemtableValue::Delete), vec![0]);
    assert_eq!(encode_value(&MemtableValue::Put(b("ab"))), vec![1, b'a', b'b']);
    assert_eq!(decode_value(&[]), None);
    assert_eq!(decode_value(&[9, 1]), None);
    assert_eq!(decode_value(&[0]), Some(MemtableValue::Delete));
    assert_eq!(decode_value(&[1]), Some(MemtableValue::Put(Vec::new())));
}

#[test]
fn varints_have_the_fewest_bytes() {
    for (value, len) in [(0u64, 1usize), (127, 1), (128, 2), (16383, 2), (16384, 3), (u64::MAX, 10)] {
        let mut buf = Vec::new();
        put_varint(&mut buf, value);
        assert_eq!(buf.len(), len);
        buf.push(0x55);
        assert_eq!(get_varint(&buf), Some((value, len)));
    }
    assert_eq!(get_varint(&[]), None);
    assert_eq!(get_varint(&[0x80]), None);
}

#[test]
fn keys_out_of_order_are_refused() {
    let mut builder = SSTableBuilder::new(SSTableConfig::default());
    builder.add(&InternalKey::new(b("b"), 1), &MemtableValue::Delete).unwrap();
    let r = builder.add(&InternalKey::new(b("a"), 1), &MemtableValue::Delete);
    assert!(matches!(r, Err(Error::InvalidArgument(_))));
}

#[test]
fn damaged_tables_are_refused() {
    assert!(matches!(SSTableReader::open(&[]), Err(Error::Corruption(_))));
    assert!(matches!(SSTableReader::open(&[0u8; 60]), Err(Error::Corruption(_))));

    let entries = vec![
        (InternalKey::new(b("a"), 2), MemtableValue::Put(b("1"))),
        (InternalKey::new(b("b"), 1), MemtableValue::Delete),
    ];
    let (file, meta) = build_table(&entries, SSTableConfig::default(), &[]).unwrap();
    assert_eq!(meta.num_entries, 2);
    assert_eq!(meta.file_size, file.len() as u64);
    let reader = SSTableReader::open(&file).unwrap();
    assert_eq!(reader.meta().num_entries, 2);
    assert_eq!(reader.meta().file_size, meta.file_size);
    assert_eq!(reader.meta().first_key, meta.first_key);
    assert_eq!(reader.meta().last_key, meta.last_key);
    assert_eq!(reader.find_version(b"b", 1).unwrap(), Some((1, vec![0])));

    let mut last = file.clone();
    let n = last.len();
    last[n - 1] ^= 1;
    assert!(SSTableReader::open(&last).is_err());
}

#[test]
fn the_order_of_bytes_is_the_order_of_keys() {
    let mut keys = Vec::new();
    for user in [vec![], vec![0], vec![0, 0], vec![0, 1], vec![0, 255], b("a"), b("a\u{0}"), b("ab"),
        b("abc"), b("b"), vec![255], vec![255, 255]]
    {
        for seq in [u64::MAX, 7, 1, 0] {
            keys.push(InternalKey::new(user.clone(), seq));
        }
    }
    for (i, x) in keys.iter().enumerate() {
        for (j, y) in keys.iter().enumerate() {
            assert_eq!(encode_internal_key(x) < encode_internal_key(y), i < j, "{:?} {:?}", x, y);
        }
    }
}

#[test]
fn an_opened_table_knows_its_entries() {
    let config = SSTableConfig { block_size: 64, ..SSTableConfig::default() };
    let entries: Vec<_> = (0..50u64)
        .map(|i| (InternalKey::new(b(&format!("k{:03}", i)), i), MemtableValue::Put(b("v"))))
        .collect();
    let (file, made) = build_table(&entries, config, &[]).unwrap();
    let reader = SSTableReader::open(&file).unwrap();
    assert!(reader.block_count() > 1);
    let opened = reader.meta();
    assert_eq!(opened.num_entries, 50);
    assert_eq!(opened.num_entries, made.num_entries);
    assert_eq!(opened.first_key, made.first_key);
    assert_eq!(opened.last_key, made.last_key);
    assert_eq!(opened.file_size, made.file_size);
}
