use crackeddb::compaction::CompactionConfig;
use crackeddb::disk::{Disk, DiskOp, FileId};
use crackeddb::engine::{EngineConfig, LsmEngine};
use crackeddb::error::Error;
use crackeddb::manifest::decode_manifest;
use crackeddb::scan::KeyBound;
use crackeddb::sstable::SSTableReader;
use std::collections::HashMap;

fn b(s: &str) -> Vec<u8> {
    s.as_bytes().to_vec()
}

fn open(config: EngineConfig) -> LsmEngine {
    LsmEngine::open(Disk::new(), config).unwrap()
}

fn scan_all(engine: &LsmEngine, ts: u64) -> Vec<(Vec<u8>, Vec<u8>)> {
    engine.scan_at_snapshot(&KeyBound::Unbounded, &KeyBound::Unbounded, ts).unwrap()
}

#[test]
fn engine_basic_put_get() {
    let mut engine = open(EngineConfig::default());

    engine.put(b"key1", b"value1").unwrap();
    engine.put(b"key2", b"value2").unwrap();

    assert_eq!(engine.get(b"key1").unwrap(), Some(b("value1")));
    assert_eq!(engine.get(b"key2").unwrap(), Some(b("value2")));
    assert_eq!(engine.get(b"key3").unwrap(), None);
}

#[test]
fn engine_overwrite_key() {
    let mut engine = open(EngineConfig::default());

    engine.put(b"key", b"value1").unwrap();
    assert_eq!(engine.get(b"key").unwrap(), Some(b("value1")));

    engine.put(b"key", b"value2").unwrap();
    assert_eq!(engine.get(b"key").unwrap(), Some(b("value2")));
}

#[test]
fn engine_delete_key() {
    let mut engine = open(EngineConfig::default());

    engine.put(b"key", b"value").unwrap();
    assert_eq!(engine.get(b"key").unwrap(), Some(b("value")));

    engine.delete(b"key").unwrap();
    assert_eq!(engine.get(b"key").unwrap(), None);
}

#[test]
fn flush_to_sstable() {
    let config = EngineConfig { memtable_size: 1024, ..Default::default() };
    let mut engine = open(config);

    for i in 0..100 {
        let key = format!("key{:05}", i);
        let value = format!("value{:05}", i);
        engine.put(key.as_bytes(), value.as_bytes()).unwrap();
    }

    engine.flush().unwrap();

    for i in 0..100 {
        let key = format!("key{:05}", i);
        let expected = format!("value{:05}", i);
        assert_eq!(engine.get(key.as_bytes()).unwrap(), Some(b(&expected)));
    }

    let made = engine
        .take_ops()
        .into_iter()
        .filter(|op| matches!(op, DiskOp::Create(FileId::Sst(_))))
        .count();
    assert!(made > 0);
}

#[test]
fn recovery_from_wal() {
    let disk = {
        let mut engine = open(EngineConfig::default());
        engine.put(b"key1", b"value1").unwrap();
        engine.put(b"key2", b"value2").unwrap();
        engine.delete(b"key1").unwrap();
        engine.put(b"key3", b"value3").unwrap();
        engine.into_disk()
    };

    let engine = LsmEngine::open(disk, EngineConfig::default()).unwrap();
    assert_eq!(engine.get(b"key1").unwrap(), None);
    assert_eq!(engine.get(b"key2").unwrap(), Some(b("value2")));
    assert_eq!(engine.get(b"key3").unwrap(), Some(b("value3")));
}

#[test]
fn engine_mvcc_read_at_sequence() {
    let mut engine = open(EngineConfig::default());

    engine.put(b"key", b"v1").unwrap();
    let seq1 = engine.sequence();

    engine.put(b"key", b"v2").unwrap();
    let seq2 = engine.sequence();

    engine.put(b"key", b"v3").unwrap();

    // Each write advances the sequence, so the write itself is at one less.
    assert_eq!(engine.get_at(b"key", seq1 - 1).unwrap(), Some(b("v1")));
    assert_eq!(engine.get_at(b"key", seq2 - 1).unwrap(), Some(b("v2")));
    assert_eq!(engine.get(b"key").unwrap(), Some(b("v3")));
}

#[test]
fn compaction_reduces_l0_files() {
    let config = EngineConfig {
        memtable_size: 512,
        compaction: CompactionConfig { l0_compaction_trigger: 2, ..Default::default() },
        ..Default::default()
    };
    let mut engine = open(config);

    for batch in 0..4 {
        for i in 0..50 {
            let key = format!("batch{}_key{:05}", batch, i);
            let value = format!("value{:05}", i);
            engine.put(key.as_bytes(), value.as_bytes()).unwrap();
        }
        engine.flush().unwrap();
    }

    let disk = engine.into_disk();
    let (version_before, _, _) = decode_manifest(disk.read(FileId::Manifest).unwrap()).unwrap();
    let l0_count_before = version_before.levels[0].len();
    assert!(l0_count_before > 0);

    let mut engine = LsmEngine::open(disk, config).unwrap();
    while engine.maybe_compact().unwrap() {}

    for batch in 0..4 {
        for i in 0..50 {
            let key = format!("batch{}_key{:05}", batch, i);
            let expected = format!("value{:05}", i);
            let actual = engine.get(key.as_bytes()).unwrap();
            assert_eq!(
                actual,
                Some(b(&expected)),
                "Failed for key: {} (expected {:?}, got {:?})",
                key,
                expected,
                actual
            );
        }
    }

    let disk = engine.into_disk();
    let (version_after, _, _) = decode_manifest(disk.read(FileId::Manifest).unwrap()).unwrap();
    assert!(version_after.levels[0].len() < l0_count_before || !version_after.levels[1].is_empty());

    let l1_files = &version_after.levels[1];
    assert!(!l1_files.is_empty(), "L1 should have files after compaction");

    for file in l1_files {
        let reader = SSTableReader::open(disk.read(FileId::Sst(file.file_num)).unwrap()).unwrap();
        let entry_count = reader.iter().unwrap().len();
        assert!(entry_count > 0, "L1 file {} should have entries", file.file_num);
    }
}

#[test]
fn iter_versions_sees_sstable_versions() {
    let mut engine = open(EngineConfig::default());

    for i in 0..10 {
        engine.put_versioned(b"k", format!("v{}", i).as_bytes(), i as u64 + 1).unwrap();
    }

    engine.flush().unwrap();

    let versions = engine.iter_versions(b"k", 100).unwrap();
    assert_eq!(
        versions.len(),
        10,
        "should see all 10 versions in SSTable; found {}",
        versions.len()
    );
    assert_eq!(versions[0], (10, Some(b("v9"))));
    assert_eq!(engine.iter_versions(b"k", 3).unwrap().len(), 3);
}

#[test]
fn scan_at_snapshot_basic() {
    let mut engine = open(EngineConfig::default());

    engine.put_versioned(b"a", b"a1", 1).unwrap();
    engine.put_versioned(b"b", b"b1", 2).unwrap();
    engine.put_versioned(b"c", b"c1", 3).unwrap();
    engine.wal_sync();

    let results = scan_all(&engine, 10);

    assert_eq!(results.len(), 3);
    assert_eq!(results[0], (b("a"), b("a1")));
    assert_eq!(results[1], (b("b"), b("b1")));
    assert_eq!(results[2], (b("c"), b("c1")));
}

#[test]
fn scan_at_snapshot_respects_timestamp() {
    let mut engine = open(EngineConfig::default());

    engine.put_versioned(b"a", b"a1", 1).unwrap();
    engine.put_versioned(b"a", b"a2", 5).unwrap();
    engine.put_versioned(b"b", b"b1", 3).unwrap();
    engine.wal_sync();

    let results = scan_all(&engine, 2);
    assert_eq!(results.len(), 1);
    assert_eq!(results[0], (b("a"), b("a1")));

    let results = scan_all(&engine, 4);
    assert_eq!(results.len(), 2);
    assert_eq!(results[0], (b("a"), b("a1")));
    assert_eq!(results[1], (b("b"), b("b1")));

    let results = scan_all(&engine, 6);
    assert_eq!(results.len(), 2);
    assert_eq!(results[0], (b("a"), b("a2")));
    assert_eq!(results[1], (b("b"), b("b1")));
}

#[test]
fn scan_at_snapshot_filters_tombstones() {
    let mut engine = open(EngineConfig::default());

    engine.put_versioned(b"a", b"a1", 1).unwrap();
    engine.put_versioned(b"b", b"b1", 2).unwrap();
    engine.delete_versioned(b"a", 3).unwrap();
    engine.wal_sync();

    let results = scan_all(&engine, 2);
    assert_eq!(results.len(), 2);

    let results = scan_all(&engine, 4);
    assert_eq!(results.len(), 1);
    assert_eq!(results[0], (b("b"), b("b1")));
}

#[test]
fn scan_at_snapshot_range_bounds() {
    let mut engine = open(EngineConfig::default());

    engine.put_versioned(b"a", b"a1", 1).unwrap();
    engine.put_versioned(b"b", b"b1", 2).unwrap();
    engine.put_versioned(b"c", b"c1", 3).unwrap();
    engine.put_versioned(b"d", b"d1", 4).unwrap();
    engine.wal_sync();

    let results = engine
        .scan_at_snapshot(&KeyBound::Included(b("b")), &KeyBound::Included(b("c")), 10)
        .unwrap();
    assert_eq!(results.len(), 2);
    assert_eq!(results[0].0, b("b"));
    assert_eq!(results[1].0, b("c"));

    let results = engine
        .scan_at_snapshot(&KeyBound::Excluded(b("b")), &KeyBound::Excluded(b("d")), 10)
        .unwrap();
    assert_eq!(results.len(), 1);
    assert_eq!(results[0].0, b("c"));

    let results = engine
        .scan_at_snapshot(&KeyBound::Unbounded, &KeyBound::Excluded(b("c")), 10)
        .unwrap();
    assert_eq!(results.len(), 2);
    assert_eq!(results[0].0, b("a"));
    assert_eq!(results[1].0, b("b"));
}

#[test]
fn scan_at_snapshot_across_sstable() {
    let config = EngineConfig { memtable_size: 512, ..Default::default() };
    let mut engine = open(config);

    for i in 0..50 {
        let key = format!("key{:05}", i);
        let value = format!("val{:05}", i);
        engine.put_versioned(key.as_bytes(), value.as_bytes(), i as u64 + 1).unwrap();
    }
    engine.wal_sync();

    engine.flush().unwrap();

    let results = scan_all(&engine, 100);
    assert_eq!(results.len(), 50);

    for (i, (key, value)) in results.iter().enumerate() {
        let expected_key = format!("key{:05}", i);
        let expected_value = format!("val{:05}", i);
        assert_eq!(key.as_slice(), expected_key.as_bytes());
        assert_eq!(value.as_slice(), expected_value.as_bytes());
    }
}

#[test]
fn scan_returns_engine_errors() {
    // A damaged table makes a scan fail instead of leaving its entries out.
    let mut engine = open(EngineConfig::default());
    engine.put_versioned(b"a", b"a1", 1).unwrap();
    engine.flush().unwrap();
    let mut disk = engine.into_disk();
    let (version, _, _) = decode_manifest(disk.read(FileId::Manifest).unwrap()).unwrap();
    let num = version.levels[0][0].file_num;
    disk.truncate(FileId::Sst(num), 10);
    let engine = LsmEngine::open(disk, EngineConfig::default()).unwrap();
    let r = engine.scan_at_snapshot(&KeyBound::Unbounded, &KeyBound::Unbounded, 10);
    assert!(matches!(r, Err(Error::Corruption(_))));
}

#[test]
fn engine_with_learned_indexes() {
    let config = EngineConfig {
        memtable_size: 4096,
        wal_segment_size: 16 * 1024,
        ..EngineConfig::default()
    };

    let mut engine = open(config);

    for i in 0..500 {
        let key = format!("key{:05}", i);
        let value = format!("value{:05}", i);
        engine.put(key.as_bytes(), value.as_bytes()).unwrap();
    }

    for i in 0..500 {
        let key = format!("key{:05}", i);
        let expected = format!("value{:05}", i);
        let result = engine.get(key.as_bytes()).unwrap();
        assert_eq!(result.as_deref(), Some(expected.as_bytes()), "Key {} mismatch", key);
    }
}

#[test]
fn batches_and_transactions_are_recovered() {
    let mut engine = open(EngineConfig::default());
    engine
        .put_versioned_batch(
            7,
            vec![(b("x"), Some(b("1"))), (b("y"), Some(b("2"))), (b("x"), None)],
        )
        .unwrap();
    engine.wal_append_txn_begin(3).unwrap();
    engine.wal_append_txn_write(3, b"t", b"kept").unwrap();
    engine.wal_append_txn_commit(3, 9).unwrap();
    engine.wal_append_txn_begin(4).unwrap();
    engine.wal_append_txn_write(4, b"u", b"lost").unwrap();
    engine.wal_append_txn_begin(5).unwrap();
    engine.wal_append_txn_write(5, b"w", b"undone").unwrap();
    engine.wal_append_txn_abort(5).unwrap();
    engine.wal_sync();
    let mut disk = engine.into_disk();
    disk.simulate_crash();

    let engine = LsmEngine::open(disk, EngineConfig::default()).unwrap();
    assert_eq!(engine.get_at(b"y", 7).unwrap(), Some(b("2")));
    assert_eq!(engine.get_at(b"y", 6).unwrap(), None);
    assert_eq!(engine.get_at(b"x", 7).unwrap(), None);
    assert_eq!(engine.get_at(b"t", 9).unwrap(), Some(b("kept")));
    assert_eq!(engine.get_at(b"u", 100).unwrap(), None);
    assert_eq!(engine.get_at(b"w", 100).unwrap(), None);
    assert_eq!(engine.max_txn_id(), 5);
    assert_eq!(engine.max_commit_ts(), 9);
}

#[test]
fn unsynced_versioned_writes_are_lost_in_a_crash() {
    let mut engine = open(EngineConfig::default());
    engine.put_versioned(b"a", b"kept", 1).unwrap();
    engine.wal_sync();
    engine.put_versioned(b"b", b"lost", 2).unwrap();
    let mut disk = engine.into_disk();
    disk.simulate_crash();
    let engine = LsmEngine::open(disk, EngineConfig::default()).unwrap();
    assert_eq!(scan_all(&engine, 10), vec![(b("a"), b("kept"))]);
}

#[test]
fn compaction_with_a_watermark_drops_what_nobody_can_read() {
    let config = EngineConfig {
        compaction: CompactionConfig { l0_compaction_trigger: 2, ..Default::default() },
        ..Default::default()
    };
    let mut engine = open(config);
    for ts in 1..=5u64 {
        engine.put_versioned(b"k", format!("v{}", ts).as_bytes(), ts).unwrap();
        engine.flush().unwrap();
    }
    assert_eq!(engine.iter_versions(b"k", 100).unwrap().len(), 5);
    assert!(engine.compact_with_gc(3).unwrap());
    let seqs: Vec<u64> =
        engine.iter_versions(b"k", 100).unwrap().into_iter().map(|(s, _)| s).collect();
    assert_eq!(seqs, vec![5, 4, 3]);
    assert_eq!(engine.get_at(b"k", 3).unwrap(), Some(b("v3")));
    assert_eq!(engine.get_at(b"k", 2).unwrap(), None);
}

#[test]
fn writes_after_a_timestamp_are_found_wherever_they_are() {
    let mut engine = open(EngineConfig::default());
    engine.put_versioned(b"k", b"v", 5).unwrap();
    assert!(engine.has_write_after(b"k", 4).unwrap());
    assert!(!engine.has_write_after(b"k", 5).unwrap());
    engine.flush().unwrap();
    assert!(engine.has_write_after(b"k", 4).unwrap());
    assert!(!engine.has_write_after(b"k", 5).unwrap());
    assert!(!engine.has_write_after(b"other", 0).unwrap());
}

#[test]
fn each_put_is_its_own_group_of_one() {
    let mut engine = open(EngineConfig::default());
    for i in 0..4 {
        engine.put(format!("k{}", i).as_bytes(), b"v").unwrap();
    }
    let stats = engine.group_commit_stats();
    assert_eq!(stats.total_commits, 4);
    assert_eq!(stats.total_fsyncs, 4);
}

#[test]
fn a_database_without_levels_is_refused() {
    let config = EngineConfig {
        compaction: CompactionConfig { max_levels: 0, ..Default::default() },
        ..Default::default()
    };
    assert!(matches!(LsmEngine::open(Disk::new(), config), Err(Error::InvalidArgument(_))));
}

#[test]
fn a_timestamp_at_the_end_is_refused() {
    let mut engine = open(EngineConfig::default());
    let r = engine.put_versioned(b"k", b"v", u64::MAX);
    assert!(matches!(r, Err(Error::InvalidArgument(_))));
}

#[test]
fn a_missing_table_is_reported() {
    let mut engine = open(EngineConfig::default());
    engine.put(b"k", b"v").unwrap();
    engine.flush().unwrap();
    let mut disk = engine.into_disk();
    let (version, _, _) = decode_manifest(disk.read(FileId::Manifest).unwrap()).unwrap();
    let num = version.levels[0][0].file_num;
    disk.remove(FileId::Sst(num));
    for segment in disk.wal_numbers() {
        disk.remove(FileId::Wal(segment));
    }
    let engine = LsmEngine::open(disk, EngineConfig::default()).unwrap();
    let e = engine.get(b"k").unwrap_err();
    assert_eq!(e.message(), format!("io error: no such file: {:06}.sst", num));
}

#[test]
fn model_and_engine_agree_over_flushes_and_compactions() {
    let config = EngineConfig {
        memtable_size: 300,
        compaction: CompactionConfig { l0_compaction_trigger: 2, ..Default::default() },
        ..Default::default()
    };
    let mut engine = open(config);
    let mut expected: HashMap<Vec<u8>, Option<Vec<u8>>> = HashMap::new();
    for i in 0..200u32 {
        let key = format!("k{:02}", (i * 7) % 23).into_bytes();
        if i % 5 == 4 {
            engine.delete(&key).unwrap();
            expected.insert(key, None);
        } else {
            let value = format!("v{}", i).into_bytes();
            engine.put(&key, &value).unwrap();
            expected.insert(key, Some(value));
        }
        if i % 40 == 39 {
            engine.flush().unwrap();
        }
        if i % 90 == 89 {
            engine.compact_all().unwrap();
        }
        for (k, v) in &expected {
            assert_eq!(&engine.get(k).unwrap(), v);
        }
    }
    let live = expected.values().filter(|v| v.is_some()).count();
    assert_eq!(scan_all(&engine, engine.sequence()).len(), live);
}

#[test]
fn compaction_keeps_levels_in_order_and_reads_the_same() {
    let config = EngineConfig {
        memtable_size: 1 << 20,
        compaction: CompactionConfig {
            l0_compaction_trigger: 2,
            base_level_size: 400,
            ..Default::default()
        },
        ..Default::default()
    };
    let mut engine = open(config);
    for round in 0..6u32 {
        for i in 0..20u32 {
            if (i + round) % 4 == 0 {
                let key = format!("key{:03}", i);
                engine.put(key.as_bytes(), format!("{}-{}", round, i).as_bytes()).unwrap();
            }
        }
        engine.delete(format!("key{:03}", round).as_bytes()).unwrap();
        engine.flush().unwrap();
        let keys: Vec<Vec<u8>> = (0..21u32).map(|i| format!("key{:03}", i).into_bytes()).collect();
        let before: Vec<_> = keys.iter().map(|k| engine.get(k).unwrap()).collect();
        while engine.maybe_compact().unwrap() {
            let after: Vec<_> = keys.iter().map(|k| engine.get(k).unwrap()).collect();
            assert_eq!(before, after);
        }
    }
    assert_eq!(engine.get(b"key005").unwrap(), None);
    assert_eq!(engine.get(b"key019").unwrap(), Some(b("5-19")));
    let disk = engine.into_disk();
    let (version, _, _) = decode_manifest(disk.read(FileId::Manifest).unwrap()).unwrap();
    assert!(version.levels[0].len() < 2);
    for level in &version.levels[1..] {
        for pair in level.windows(2) {
            assert!(pair[0].smallest_key <= pair[0].largest_key);
            assert!(pair[0].largest_key < pair[1].smallest_key);
        }
    }
}

#[test]
fn keys_that_begin_alike_are_kept_in_order() {
    let config = EngineConfig {
        compaction: CompactionConfig { l0_compaction_trigger: 2, ..Default::default() },
        ..Default::default()
    };
    let mut engine = open(config);
    let keys = ["a", "a\u{0}", "a\u{0}b", "ab", "abc", "k1", "k10", "k100", "k2"];
    for key in keys {
        engine.put(key.as_bytes(), key.as_bytes()).unwrap();
    }
    engine.flush().unwrap();
    for key in keys.iter().rev() {
        engine.put(key.as_bytes(), b"new").unwrap();
        engine.flush().unwrap();
    }
    engine.compact_all().unwrap();
    for key in keys {
        assert_eq!(engine.get(key.as_bytes()).unwrap(), Some(b("new")), "{:?}", key);
    }
    let found: Vec<Vec<u8>> =
        scan_all(&engine, engine.sequence()).into_iter().map(|(k, _)| k).collect();
    assert_eq!(found, keys.iter().map(|k| b(k)).collect::<Vec<_>>());
}

#[test]
fn a_failed_flush_keeps_what_was_written() {
    let mut disk = Disk::new();
    disk.create(FileId::Sst(1));
    let mut engine = LsmEngine::open(disk, EngineConfig::default()).unwrap();
    engine.put(b"k", b"v").unwrap();
    let e = engine.flush().unwrap_err();
    assert_eq!(e.message(), "io error: file exists");
    assert_eq!(engine.get(b"k").unwrap(), Some(b("v")));
    engine.flush().unwrap();
    assert_eq!(engine.get(b"k").unwrap(), Some(b("v")));
    let disk = engine.into_disk();
    assert!(disk.read(FileId::Sst(2)).is_some());
}

#[test]
fn no_versions_are_listed_where_none_are_asked_for() {
    let mut engine = open(EngineConfig::default());
    engine.put(b"k", b"v").unwrap();
    assert!(engine.iter_versions(b"k", 0).unwrap().is_empty());
    assert_eq!(engine.iter_versions(b"k", 1).unwrap().len(), 1);
    engine.flush().unwrap();
    assert!(engine.iter_versions(b"k", 0).unwrap().is_empty());
}

#[test]
fn versions_of_a_key_stay_in_one_file() {
    // A file is full with two entries.
    let config = EngineConfig {
        compaction: CompactionConfig {
            l0_compaction_trigger: 2,
            base_level_size: 2_000,
            ..Default::default()
        },
        ..Default::default()
    };
    let mut engine = open(config);
    for ts in 1..=6u64 {
        for key in ["a", "k", "z"] {
            engine.put_versioned(key.as_bytes(), format!("{}{}", key, ts).as_bytes(), ts).unwrap();
        }
        engine.flush().unwrap();
    }
    assert!(engine.compact_with_gc(0).unwrap());
    for ts in 1..=6u64 {
        for key in ["a", "k", "z"] {
            assert_eq!(
                engine.get_at(key.as_bytes(), ts).unwrap(),
                Some(b(&format!("{}{}", key, ts)))
            );
        }
        assert_eq!(scan_all(&engine, ts).len(), 3);
    }
    let mut disk = engine.into_disk();
    let (version, _, _) = decode_manifest(disk.read(FileId::Manifest).unwrap()).unwrap();
    assert_eq!(version.levels[0].len(), 0);
    assert_eq!(version.levels[1].len(), 3);
    for f in &version.levels[1] {
        let reader = SSTableReader::open(disk.read(FileId::Sst(f.file_num)).unwrap()).unwrap();
        assert_eq!(reader.meta().num_entries, 6);
    }
    disk.simulate_crash();
    let engine = LsmEngine::open(disk, config).unwrap();
    assert_eq!(engine.get_at(b"k", 4).unwrap(), Some(b("k4")));
}

#[test]
fn reads_and_scans_agree_over_flushes_and_reopenings() {
    let config = EngineConfig::default();
    let mut engine = open(config);
    let mut written: Vec<(u64, Vec<u8>, Option<Vec<u8>>)> = vec![];
    for round in 0..4u32 {
        for key in ["a", "ab", "b"] {
            let seq = engine.sequence();
            if round == 2 && key == "ab" {
                engine.delete(key.as_bytes()).unwrap();
                written.push((seq, b(key), None));
            } else {
                let value = b(&format!("{}{}", key, round));
                engine.put(key.as_bytes(), &value).unwrap();
                written.push((seq, b(key), Some(value)));
            }
        }
        if round % 2 == 0 {
            engine.flush().unwrap();
        }
        if round > 0 {
            // The log gives back what the table files hold as well.
            let mut disk = engine.into_disk();
            disk.simulate_crash();
            engine = LsmEngine::open(disk, config).unwrap();
        }
        if round == 2 {
            // A table file now repeats what others hold.
            engine.put(b"z", b"z").unwrap();
            written.push((engine.sequence() - 1, b("z"), Some(b("z"))));
            engine.flush().unwrap();
        }
        assert!(written.iter().all(|w| w.0 < engine.sequence()));
        for at in 0..engine.sequence() {
            let mut seen: Vec<(Vec<u8>, Vec<u8>)> = vec![];
            for key in ["a", "ab", "b", "z"] {
                let newest = written
                    .iter()
                    .filter(|w| w.1 == b(key) && w.0 <= at)
                    .max_by_key(|w| w.0)
                    .and_then(|w| w.2.clone());
                assert_eq!(engine.get_at(key.as_bytes(), at).unwrap(), newest);
                if let Some(v) = newest {
                    seen.push((b(key), v));
                }
            }
            assert_eq!(scan_all(&engine, at), seen);
        }
    }
}

/// A database whose log was read back and flushed again, so that two table files hold the same.
fn with_repeats(config: EngineConfig) -> LsmEngine {
    let mut engine = open(config);
    engine.put(b"a", b"a1").unwrap();
    engine.put(b"b", b"b1").unwrap();
    engine.delete(b"b").unwrap();
    engine.delete(b"c").unwrap();
    engine.put(b"a", b"a2").unwrap();
    engine.flush().unwrap();
    let mut disk = engine.into_disk();
    disk.simulate_crash();
    let mut engine = LsmEngine::open(disk, config).unwrap();
    engine.flush().unwrap();
    engine
}

#[test]
fn what_was_read_back_and_flushed_again_is_compacted() {
    let config = EngineConfig {
        compaction: CompactionConfig { l0_compaction_trigger: 2, ..Default::default() },
        ..Default::default()
    };
    // No watermark, one above all versions, one in between and one below all.
    for watermark in [None, Some(10), Some(3), Some(0)] {
        let mut engine = with_repeats(config);
        let first = engine.sequence() - 5;
        let before = scan_all(&engine, engine.sequence());
        assert_eq!(before, vec![(b("a"), b("a2"))]);
        match watermark {
            Some(w) => assert!(engine.compact_with_gc(w).unwrap()),
            None => assert!(engine.maybe_compact().unwrap()),
        }
        assert_eq!(scan_all(&engine, engine.sequence()), before);
        assert_eq!(engine.get(b"a").unwrap(), Some(b("a2")));
        assert_eq!(engine.get(b"b").unwrap(), None);
        assert_eq!(engine.get(b"c").unwrap(), None);
        if watermark == Some(0) {
            assert_eq!(engine.get_at(b"b", first + 1).unwrap(), Some(b("b1")));
            assert_eq!(engine.iter_versions(b"b", 10).unwrap().len(), 2);
        }
        let mut disk = engine.into_disk();
        let (version, _, _) = decode_manifest(disk.read(FileId::Manifest).unwrap()).unwrap();
        assert_eq!(version.levels[0].len(), 0);
        assert_eq!(version.levels[1].len(), 1);
        // Again, on top of what was compacted.
        disk.simulate_crash();
        let mut engine = LsmEngine::open(disk, config).unwrap();
        engine.flush().unwrap();
        engine.put(b"d", b"d1").unwrap();
        engine.flush().unwrap();
        match watermark {
            Some(w) => assert!(engine.compact_with_gc(w).unwrap()),
            None => assert!(engine.maybe_compact().unwrap()),
        }
        let after = scan_all(&engine, engine.sequence());
        assert_eq!(after, vec![(b("a"), b("a2")), (b("d"), b("d1"))]);
        assert_eq!(engine.get(b"b").unwrap(), None);
    }
}

#[test]
fn a_compaction_under_the_watermark_of_the_engine_succeeds_again() {
    let config = EngineConfig {
        compaction: CompactionConfig { l0_compaction_trigger: 2, ..Default::default() },
        ..Default::default()
    };
    let mut engine = with_repeats(config);
    engine.set_watermark_source(Some(10));
    assert!(engine.maybe_compact().unwrap());
    assert!(!engine.maybe_compact().unwrap());
    assert_eq!(engine.get(b"a").unwrap(), Some(b("a2")));
    assert_eq!(engine.get(b"b").unwrap(), None);
}

#[test]
fn a_damaged_block_matters_where_it_is_reached() {
    let mut engine = open(EngineConfig::default());
    let value = |c: u8| vec![c; 5000];
    for (i, key) in ["a", "b", "c"].iter().enumerate() {
        engine.put_versioned(key.as_bytes(), &value(b'0' + i as u8), 1 + i as u64).unwrap();
    }
    engine.flush().unwrap();
    let mut disk = engine.into_disk();
    for segment in disk.wal_numbers() {
        disk.remove(FileId::Wal(segment));
    }
    let (version, _, _) = decode_manifest(disk.read(FileId::Manifest).unwrap()).unwrap();
    let id = FileId::Sst(version.levels[0][0].file_num);
    let bytes = disk.read(id).unwrap().clone();
    // The number of restarts stands after the last value and the one restart of its block.
    let last = bytes.windows(5000).position(|w| w == value(b'2').as_slice()).unwrap();
    disk.write_at(id, last + 5004, &[255; 4]);
    let engine = LsmEngine::open(disk, EngineConfig::default()).unwrap();
    let to = |key: &str| {
        engine.scan_at_snapshot(&KeyBound::Unbounded, &KeyBound::Excluded(b(key)), 10)
    };
    assert_eq!(to("b").unwrap(), vec![(b("a"), value(b'0'))]);
    assert!(matches!(to("c"), Err(Error::Corruption(_))));
    assert!(matches!(to("z"), Err(Error::Corruption(_))));
    assert_eq!(engine.iter_versions(b"b", 1).unwrap(), vec![(2, Some(value(b'1')))]);
    assert!(matches!(engine.iter_versions(b"b", 2), Err(Error::Corruption(_))));
    assert_eq!(engine.get_at(b"a", 10).unwrap(), Some(value(b'0')));
    assert!(engine.get_at(b"c", 10).is_err());
}
