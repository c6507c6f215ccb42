use crackeddb::memtable::{
    ImmutableMemtable, InternalKey, LookupResult, Memtable, MemtableConfig, MemtableValue,
};

fn b(s: &str) -> Vec<u8> {
    s.as_bytes().to_vec()
}

#[test]
fn memtable_basic_put_get() {
    let mut mem = Memtable::with_id(1);
    mem.put(b("key1"), b("value1"));
    mem.put(b("key2"), b("value2"));

    assert_eq!(mem.get_latest(b"key1"), Some(b("value1")));
    assert_eq!(mem.get_latest(b"key2"), Some(b("value2")));
    assert_eq!(mem.get_latest(b"key3"), None);
}

#[test]
fn memtable_overwrite_key() {
    let mut mem = Memtable::with_id(1);
    mem.put(b("key"), b("value1"));
    mem.put(b("key"), b("value2"));
    mem.put(b("key"), b("value3"));

    // The most recent value is read.
    assert_eq!(mem.get_latest(b"key"), Some(b("value3")));

    // All versions are kept.
    assert_eq!(mem.len(), 3);
}

#[test]
fn memtable_delete_key() {
    let mut mem = Memtable::with_id(1);
    mem.put(b("key"), b("value"));
    mem.delete(b("key"));

    assert_eq!(mem.get_latest(b"key"), None);
}

#[test]
fn memtable_mvcc_read_at_sequence() {
    let mut mem = Memtable::with_id(1);

    let seq1 = mem.put(b("key"), b("v1"));
    let seq2 = mem.put(b("key"), b("v2"));
    let seq3 = mem.put(b("key"), b("v3"));

    assert_eq!(mem.get(b"key", seq1), Some(b("v1")));
    assert_eq!(mem.get(b"key", seq2), Some(b("v2")));
    assert_eq!(mem.get(b"key", seq3), Some(b("v3")));

    // Before any write there is nothing to read.
    assert_eq!(mem.get(b"key", 0), None);
}

#[test]
fn mvcc_delete_at_sequence() {
    let mut mem = Memtable::with_id(1);

    let seq1 = mem.put(b("key"), b("value"));
    let seq2 = mem.delete(b("key"));
    let seq3 = mem.put(b("key"), b("new_value"));

    assert_eq!(mem.get(b"key", seq1), Some(b("value")));
    assert_eq!(mem.get(b"key", seq2), None);
    assert_eq!(mem.get(b"key", seq3), Some(b("new_value")));
}

#[test]
fn iterator_order() {
    let mut mem = Memtable::with_id(1);

    mem.put(b("c"), b("3"));
    mem.put(b("a"), b("1"));
    mem.put(b("b"), b("2"));

    let entries = mem.iter();
    assert_eq!(entries.len(), 3);
    assert_eq!(entries[0].0.user_key, b"a");
    assert_eq!(entries[1].0.user_key, b"b");
    assert_eq!(entries[2].0.user_key, b"c");
}

#[test]
fn empty_memtable() {
    let mem = Memtable::with_id(1);
    assert!(mem.is_empty());
    assert_eq!(mem.len(), 0);
    assert_eq!(mem.get_latest(b"any"), None);
}

#[test]
fn size_tracking() {
    let config = MemtableConfig { max_size: 100 };
    let mut mem = Memtable::new(1, config);

    assert!(!mem.should_flush());

    for i in 0..20 {
        mem.put(b(&format!("key{:02}", i)), b(&format!("value{:02}", i)));
    }

    assert!(mem.should_flush());
}

#[test]
fn replay_with_seq() {
    let mut mem = Memtable::with_id(1);

    mem.put_with_seq(b("key1"), b("v1"), 5);
    mem.put_with_seq(b("key2"), b("v2"), 10);
    mem.delete_with_seq(b("key1"), 15);

    // The next number is higher than all replayed ones.
    assert!(mem.next_seq() > 15);
    assert_eq!(mem.next_seq(), 16);

    assert_eq!(mem.get(b"key1", 10), Some(b("v1")));
    assert_eq!(mem.get(b"key1", 20), None);
    assert_eq!(mem.get(b"key2", 20), Some(b("v2")));
}

#[test]
fn lookup_tells_a_deletion_from_nothing() {
    let mut mem = Memtable::with_id(7);
    mem.put_with_seq(b("k"), b("v"), 3);
    mem.delete_with_seq(b("k"), 5);

    assert_eq!(mem.lookup(b"k", 2), LookupResult::NotFound);
    assert_eq!(mem.lookup(b"k", 3), LookupResult::Found(b("v")));
    assert_eq!(mem.lookup(b"k", 4), LookupResult::Found(b("v")));
    assert_eq!(mem.lookup(b"k", 5), LookupResult::Deleted);
    assert_eq!(mem.lookup(b"", 5), LookupResult::NotFound);
    assert_eq!(mem.lookup(b"k\0", 5), LookupResult::NotFound);
    assert_eq!(mem.id(), 7);
}

#[test]
fn versions_of_a_key_come_newest_first() {
    let mut mem = Memtable::with_id(1);
    mem.put_with_seq(b("a"), b("1"), 1);
    mem.put_with_seq(b("a"), b("9"), 9);
    mem.put_with_seq(b("a"), b("4"), 4);
    mem.put_with_seq(b("ab"), b("x"), 2);
    mem.put_with_seq(b(""), b("e"), 3);

    let seen: Vec<(Vec<u8>, u64)> =
        mem.iter().into_iter().map(|(k, _)| (k.user_key, k.seq)).collect();
    assert_eq!(
        seen,
        vec![(b(""), 3), (b("a"), 9), (b("a"), 4), (b("a"), 1), (b("ab"), 2)]
    );
}

#[test]
fn a_range_takes_its_end_in() {
    let mut mem = Memtable::with_id(1);
    for (i, k) in ["a", "b", "c", "d"].iter().enumerate() {
        mem.put_with_seq(b(k), b("v"), i as u64 + 1);
    }
    let keys: Vec<Vec<u8>> =
        mem.range(b"b", b"d").into_iter().map(|(k, _)| k.user_key).collect();
    assert_eq!(keys, vec![b("b"), b("c"), b("d")]);
    assert!(mem.range(b"x", b"z").is_empty());
}

#[test]
fn writes_after_a_timestamp_are_seen() {
    let mut mem = Memtable::with_id(1);
    mem.put_with_seq(b("k"), b("v"), 10);
    assert!(mem.has_write_after(b"k", 9));
    assert!(!mem.has_write_after(b"k", 10));
    assert!(!mem.has_write_after(b"other", 0));

    let frozen = ImmutableMemtable::new(mem);
    assert!(frozen.has_write_after(b"k", 9));
    assert!(!frozen.has_write_after(b"k", 10));
    assert_eq!(frozen.get(b"k", 10), Some(b("v")));
    assert_eq!(frozen.lookup(b"k", 9), LookupResult::NotFound);
    assert_eq!(frozen.id(), 1);
    assert_eq!(frozen.iter().len(), 1);
    assert!(frozen.approximate_size() > 0);
}

#[test]
fn a_later_write_leaves_earlier_snapshots_alone() {
    let mut mem = Memtable::with_id(1);
    let s = mem.put(b("k"), b("old"));
    mem.put(b("other"), b("x"));
    mem.put(b("k"), b("new"));
    mem.delete(b("k"));
    assert_eq!(mem.get(b"k", s), Some(b("old")));
    assert_eq!(mem.get(b"other", s), None);
}

#[test]
fn the_same_key_and_number_is_replaced() {
    let mut mem = Memtable::with_id(1);
    mem.put_with_seq(b("k"), b("one"), 4);
    mem.put_with_seq(b("k"), b("two"), 4);
    assert_eq!(mem.len(), 1);
    assert_eq!(mem.get(b"k", 4), Some(b("two")));
}

#[test]
fn keys_order_by_bytes_and_then_newest_first() {
    let a = InternalKey::new(b("a"), 1);
    let a2 = InternalKey::new(b("a"), 2);
    let ab = InternalKey::new(b("ab"), 9);
    assert!(a2.sorts_before(&a));
    assert!(!a.sorts_before(&a2));
    assert!(a.sorts_before(&ab));
    assert!(!a.sorts_before(&a));
    assert_eq!(a.size(), 1 + 8);
    assert_eq!(a.copy(), a);
    assert_eq!(MemtableValue::Put(b("xyz")).size(), 3);
    assert_eq!(MemtableValue::Delete.size(), 0);
    assert!(MemtableValue::Delete.is_delete());
    assert!(!MemtableValue::Put(Vec::new()).is_delete());
}
