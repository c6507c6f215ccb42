use crackeddb::disk::Disk;
use crackeddb::group_commit::{CommitStep, GroupCommitConfig, GroupCommitter};
use crackeddb::wal::{WalConfig, WalReader, WalWriter};

fn committer(disk: &mut Disk, config: GroupCommitConfig) -> GroupCommitter {
    let wal = WalWriter::new(disk, WalConfig::default());
    GroupCommitter::new(wal, config)
}

#[test]
fn basic_single_commit() {
    let mut disk = Disk::new();
    let mut gc = committer(&mut disk, GroupCommitConfig::default());

    let seq = gc.commit_batch(&mut disk, b"hello").unwrap();
    assert_eq!(seq, 1);
    assert_eq!(gc.durable_seq(), 1);

    assert_eq!(gc.stats().total_commits, 1);
    assert_eq!(gc.stats().total_fsyncs, 1);
}

#[test]
fn multiple_sequential_commits() {
    let mut disk = Disk::new();
    let mut gc = committer(&mut disk, GroupCommitConfig::default());

    for i in 1..=5 {
        let seq = gc.commit_batch(&mut disk, format!("record{}", i).as_bytes()).unwrap();
        assert_eq!(seq, i);
    }

    assert_eq!(gc.durable_seq(), 5);
    assert_eq!(gc.stats().total_commits, 5);
}

#[test]
fn stats_commits_per_fsync() {
    let mut disk = Disk::new();

    let config = GroupCommitConfig {
        max_batch_wait_ns: 1_000_000_000,
        max_batch_size: 10,
        min_batch_for_delay: 1,
    };

    let mut gc = committer(&mut disk, config);

    gc.commit_batch(&mut disk, b"a").unwrap();
    gc.commit_batch(&mut disk, b"b").unwrap();
    gc.commit_batch(&mut disk, b"c").unwrap();

    let ratio = gc.stats().total_commits as f64 / gc.stats().total_fsyncs as f64;
    assert!(ratio >= 1.0, "ratio should be at least 1.0, got {}", ratio);
}

#[test]
fn a_group_is_one_fsync_and_keeps_its_order() {
    let mut disk = Disk::new();
    let config = GroupCommitConfig {
        max_batch_wait_ns: 100,
        max_batch_size: 3,
        min_batch_for_delay: 5,
    };
    let mut gc = committer(&mut disk, config);

    let first = gc.append_to_buffer(b"one", 10).unwrap();
    gc.begin_wait();
    let second = gc.append_to_buffer(b"two", 20).unwrap();
    gc.begin_wait();
    assert_eq!((first, second), (1, 2));
    assert_eq!(gc.commit_step(first, 20), CommitStep::Wait);
    assert!(!gc.should_flush_batch(109));
    assert!(gc.should_flush_batch(110));
    let third = gc.append_to_buffer(b"three", 30).unwrap();
    assert!(gc.should_flush_batch(30));
    assert_eq!(gc.commit_step(third, 30), CommitStep::Lead);

    gc.perform_fsync_as_leader(&mut disk).unwrap();
    assert_eq!(gc.durable_seq(), 3);
    assert_eq!(gc.commit_step(first, 30), CommitStep::Durable);
    assert_eq!(gc.stats().total_fsyncs, 1);

    disk.simulate_crash();
    let mut reader = WalReader::new_from_start(&disk);
    for want in ["one", "two", "three"] {
        assert_eq!(reader.read_record().unwrap().unwrap().data, want.as_bytes());
    }
    assert!(reader.read_record().unwrap().is_none());
}

#[test]
fn what_is_only_buffered_is_lost_in_a_crash() {
    let mut disk = Disk::new();
    let mut gc = committer(&mut disk, GroupCommitConfig::default());
    gc.commit_batch(&mut disk, b"kept").unwrap();
    gc.append_to_buffer(b"lost", 0).unwrap();
    disk.simulate_crash();
    let mut reader = WalReader::new_from_start(&disk);
    assert_eq!(reader.read_record().unwrap().unwrap().data, b"kept");
    assert!(reader.read_record().unwrap().is_none());
}

#[test]
fn an_fsync_in_progress_makes_others_wait() {
    let mut disk = Disk::new();
    let mut gc = committer(&mut disk, GroupCommitConfig::default());
    let first = gc.append_to_buffer(b"one", 0).unwrap();
    let batch = gc.begin_fsync();
    let second = gc.append_to_buffer(b"two", 0).unwrap();
    assert_eq!(gc.commit_step(second, u64::MAX), CommitStep::Wait);
    gc.write_batch(&mut disk, &batch).unwrap();
    gc.sync(&mut disk);
    gc.end_fsync(batch, true);
    assert_eq!(gc.commit_step(first, 0), CommitStep::Durable);
    assert_eq!(gc.durable_seq(), 1);
    // A flush adds a record of its own and waits for that.
    gc.flush(&mut disk, 0).unwrap();
    assert_eq!(gc.durable_seq(), second + 1);
}
