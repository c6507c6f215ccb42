use crackeddb::compaction::{
    apply_compaction, CompactionConfig, CompactionExecutor, CompactionPicker, CompactionResult,
    CompactionTask, FileMetadata, Version,
};
use crackeddb::disk::{Disk, FileId};
use crackeddb::error::Error;
use crackeddb::memtable::{InternalKey, MemtableValue};
use crackeddb::merge::MergeIterator;
use crackeddb::sstable::{
    encode_internal_key, encode_value, SSTableBuilder, SSTableConfig, SSTableReader,
};

fn b(s: &str) -> Vec<u8> {
    s.as_bytes().to_vec()
}

fn create_test_sstable(disk: &mut Disk, id: FileId, start: u64, end: u64) -> FileMetadata {
    let mut builder = SSTableBuilder::new(SSTableConfig::default());

    for i in start..end {
        let key = InternalKey::new(b(&format!("key{:05}", i)), i);
        let value = MemtableValue::Put(b(&format!("value{:05}", i)));
        builder.add(&key, &value).unwrap();
    }

    let (file, meta) = builder.finish(&[]);
    disk.create(id);
    disk.append(id, &file);
    disk.sync(id);

    let smallest_key = encode_internal_key(&InternalKey::new(b(&format!("key{:05}", start)), start));
    let largest_key =
        encode_internal_key(&InternalKey::new(b(&format!("key{:05}", end - 1)), end - 1));

    FileMetadata { file_num: 0, file_size: meta.file_size, smallest_key, largest_key }
}

fn file(file_num: u64, file_size: u64, smallest: &str, largest: &str) -> FileMetadata {
    FileMetadata { file_num, file_size, smallest_key: b(smallest), largest_key: b(largest) }
}

fn entry(key: &str, seq: u64, value: &str) -> (Vec<u8>, Vec<u8>) {
    (encode_internal_key(&InternalKey::new(b(key), seq)), b(value))
}

#[test]
fn version_level_size() {
    let mut version = Version::new(7);
    version.levels[0].push(file(1, 1000, "a", "b"));
    version.levels[0].push(file(2, 2000, "c", "d"));

    assert_eq!(version.level_size(0), 3000);
    assert_eq!(version.level_size(1), 0);
}

#[test]
fn version_get_overlapping() {
    let mut version = Version::new(7);

    version.levels[0].push(file(1, 1000, "a", "m"));
    version.levels[0].push(file(2, 1000, "g", "z"));

    let overlapping = version.get_overlapping_l0(b"f", b"h");
    assert_eq!(overlapping.len(), 2);

    version.levels[1].push(file(3, 1000, "a", "f"));
    version.levels[1].push(file(4, 1000, "g", "m"));
    version.levels[1].push(file(5, 1000, "n", "z"));

    let overlapping = version.get_overlapping(1, b"e", b"h");
    assert_eq!(overlapping.len(), 2);
    assert_eq!(overlapping[0].file_num, 3);
    assert_eq!(overlapping[1].file_num, 4);
}

#[test]
fn compaction_picker_l0_trigger() {
    let config = CompactionConfig { l0_compaction_trigger: 4, ..Default::default() };
    let picker = CompactionPicker::new(config);

    let mut version = Version::new(7);

    for i in 0..3 {
        version.levels[0].push(file(i, 1000, &format!("{}", i), &format!("{}z", i)));
    }

    assert!(picker.pick_compaction(&version).is_none());

    version.levels[0].push(file(4, 1000, "4", "4z"));

    let task = picker.pick_compaction(&version);
    assert!(task.is_some());
    assert_eq!(task.unwrap().level, 0);
}

#[test]
fn merge_iterator_deduplication() {
    let iter1 = vec![entry("key00001", 10, "v2"), entry("key00003", 12, "v4")];
    let iter2 = vec![entry("key00001", 5, "v1"), entry("key00002", 8, "v3")];

    let mut merge = MergeIterator::new(vec![iter1, iter2]);

    // The newer version of a key comes first and wins.
    let (key, value) = merge.next_entry().unwrap();
    assert!(key.starts_with(b"key00001"));
    assert_eq!(value, b("v2"));

    let (key, value) = merge.next_entry().unwrap();
    assert!(key.starts_with(b"key00002"));
    assert_eq!(value, b("v3"));

    let (key, value) = merge.next_entry().unwrap();
    assert!(key.starts_with(b"key00003"));
    assert_eq!(value, b("v4"));

    assert!(merge.next_entry().is_none());
}

#[test]
fn compaction_execution() {
    let mut disk = Disk::new();

    let mut file1 = create_test_sstable(&mut disk, FileId::Sst(1), 0, 50);
    file1.file_num = 1;

    let mut file2 = create_test_sstable(&mut disk, FileId::Sst(2), 25, 75);
    file2.file_num = 2;

    let task =
        CompactionTask { level: 0, input_files: vec![file1, file2], output_level_files: vec![] };

    let executor = CompactionExecutor::new(CompactionConfig::default());

    let mut next_file_num = 3;
    let result = executor.execute(&mut disk, &task, &mut next_file_num).unwrap();

    assert_eq!(result.removed_files.len(), 2);
    assert!(!result.new_files.is_empty());
    assert_eq!(result.target_level, 1);

    for file in &result.new_files {
        let reader = SSTableReader::open(disk.read(FileId::Sst(file.file_num)).unwrap()).unwrap();
        let count = reader.iter().unwrap().len();
        assert!(count > 0);
        assert_eq!(count, 75);
    }
}

#[test]
fn apply_compaction_updates_version() {
    let mut version = Version::new(7);

    version.levels[0].push(file(1, 1000, "a", "m"));
    version.levels[0].push(file(2, 1000, "n", "z"));

    let task = CompactionTask {
        level: 0,
        input_files: version.levels[0].clone(),
        output_level_files: vec![],
    };

    let result = CompactionResult {
        removed_files: vec![1, 2],
        new_files: vec![file(3, 2000, "a", "z")],
        target_level: 1,
    };

    let new_version = apply_compaction(&version, &task, &result);

    assert!(new_version.levels[0].is_empty());

    assert_eq!(new_version.levels[1].len(), 1);
    assert_eq!(new_version.levels[1][0].file_num, 3);
}

fn drain(mut merge: MergeIterator) -> Vec<(Vec<u8>, Vec<u8>)> {
    let mut results = Vec::new();
    while let Some(e) = merge.next_entry() {
        results.push(e);
    }
    results.extend(merge.flush_buffer());
    results
}

#[test]
fn version_gc_removes_old_versions() {
    let iter =
        vec![entry("key00001", 12, "v12"), entry("key00001", 8, "v8"), entry("key00001", 5, "v5")];

    let results = drain(MergeIterator::new_with_gc(vec![iter], 10));

    assert_eq!(results.len(), 2, "Should keep 2 versions, got {:?}", results);
    assert_eq!(results[0], entry("key00001", 12, "v12"));
    assert_eq!(results[1], entry("key00001", 8, "v8"));
}

#[test]
fn version_gc_keeps_newest_below_watermark() {
    let iter = vec![
        entry("key00001", 15, "v15"),
        entry("key00001", 10, "v10"),
        entry("key00001", 5, "v5"),
    ];

    let results = drain(MergeIterator::new_with_gc(vec![iter], 20));

    assert_eq!(results.len(), 1, "Should keep 1 version, got {:?}", results);
    assert_eq!(results[0], entry("key00001", 15, "v15"));
}

#[test]
fn version_gc_preserves_active_txn_snapshot() {
    let iter =
        vec![entry("key00001", 10, "v10"), entry("key00001", 7, "v7"), entry("key00001", 3, "v3")];

    let results = drain(MergeIterator::new_with_gc(vec![iter], 5));

    assert_eq!(results.len(), 3, "Should keep 3 versions, got {:?}", results);
    assert_eq!(results[0].0, entry("key00001", 10, "").0);
    assert_eq!(results[1].0, entry("key00001", 7, "").0);
    assert_eq!(results[2].0, entry("key00001", 3, "").0);
}

#[test]
fn a_repeated_version_is_merged_once() {
    let gone = |seq: u64| {
        let key = InternalKey { user_key: b("key00001"), seq };
        (encode_internal_key(&key), encode_value(&MemtableValue::Delete))
    };
    let a = vec![entry("key00001", 12, "v12"), gone(8), gone(5)];
    let c = vec![entry("key00001", 12, "v12"), gone(8), gone(5), entry("key00002", 9, "w")];
    let results = drain(MergeIterator::new_with_gc(vec![a, c], 10));
    assert_eq!(
        results,
        vec![entry("key00001", 12, "v12"), gone(8), gone(5), entry("key00002", 9, "w")]
    );
    let newest = drain(MergeIterator::new(vec![vec![gone(3)], vec![gone(3)], vec![gone(1)]]));
    assert_eq!(newest, vec![gone(3)]);
}

#[test]
fn level_targets_grow_by_the_ratio() {
    let picker = CompactionPicker::new(CompactionConfig {
        base_level_size: 100,
        size_ratio: 10,
        ..Default::default()
    });
    assert_eq!(picker.target_level_size(1), 100);
    assert_eq!(picker.target_level_size(2), 1000);
    assert_eq!(picker.target_level_size(3), 10000);
}

#[test]
fn a_level_over_its_size_is_picked() {
    let picker = CompactionPicker::new(CompactionConfig {
        base_level_size: 100,
        size_ratio: 10,
        ..Default::default()
    });
    let mut version = Version::new(4);
    version.levels[1].push(file(1, 60, "a", "c"));
    version.levels[1].push(file(2, 60, "d", "f"));
    version.levels[2].push(file(3, 60, "b", "e"));
    version.levels[2].push(file(4, 60, "x", "z"));
    let task = picker.pick_compaction(&version).unwrap();
    assert_eq!(task.level, 1);
    assert!(!task.input_files.is_empty());
    assert!(task.output_level_files.iter().all(|f| f.file_num == 3));
}

#[test]
fn a_compaction_without_its_table_fails() {
    let mut disk = Disk::new();
    let task = CompactionTask {
        level: 0,
        input_files: vec![file(9, 10, "a", "b")],
        output_level_files: vec![],
    };
    let executor = CompactionExecutor::new(CompactionConfig::default());
    let mut next_file_num = 10;
    let r = executor.execute(&mut disk, &task, &mut next_file_num);
    assert!(matches!(r, Err(Error::Io(_))));
}

#[test]
fn a_compaction_with_a_watermark_keeps_what_snapshots_read() {
    let mut disk = Disk::new();
    let mut builder = SSTableBuilder::new(SSTableConfig::default());
    for seq in [9u64, 6, 4, 2] {
        builder
            .add(&InternalKey::new(b("k"), seq), &MemtableValue::Put(b(&format!("v{}", seq))))
            .unwrap();
    }
    let (bytes, meta) = builder.finish(&[]);
    disk.create(FileId::Sst(1));
    disk.append(FileId::Sst(1), &bytes);
    let input = FileMetadata {
        file_num: 1,
        file_size: meta.file_size,
        smallest_key: encode_internal_key(&InternalKey::new(b("k"), 9)),
        largest_key: encode_internal_key(&InternalKey::new(b("k"), 2)),
    };
    let task = CompactionTask { level: 0, input_files: vec![input], output_level_files: vec![] };
    let executor = CompactionExecutor::new(CompactionConfig::default());
    let mut next_file_num = 2;
    let result = executor.execute_with_gc(&mut disk, &task, &mut next_file_num, 5).unwrap();
    assert_eq!(next_file_num, 3);
    let reader = SSTableReader::open(disk.read(FileId::Sst(2)).unwrap()).unwrap();
    assert_eq!(result.new_files[0].file_num, 2);
    for (at, want) in [(9u64, Some(9u64)), (8, Some(6)), (5, Some(4)), (3, None)] {
        assert_eq!(reader.find_version(b"k", at).unwrap().map(|(s, _)| s), want);
    }
}
