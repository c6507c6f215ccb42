use crackeddb::rng::{Draws, SimpleRng};
use crackeddb::workload::{
    Operation, OperationBatch, OperationLog, WorkloadConfig, WorkloadGenerator,
};

#[test]
fn workload_deterministic() {
    let mut rng1 = Draws::seeded(42);
    let mut rng2 = Draws::seeded(42);

    let gen1 = WorkloadGenerator::new(WorkloadConfig::default());
    let gen2 = WorkloadGenerator::new(WorkloadConfig::default());

    let ops1: Vec<_> = (0..100).map(|_| gen1.next_op(&mut rng1)).collect();
    let ops2: Vec<_> = (0..100).map(|_| gen2.next_op(&mut rng2)).collect();

    assert_eq!(ops1, ops2, "Same seed must produce identical workloads");
}

#[test]
fn workload_different_seeds() {
    let mut rng1 = Draws::seeded(42);
    let mut rng2 = Draws::seeded(43);

    let gen1 = WorkloadGenerator::new(WorkloadConfig::default());
    let gen2 = WorkloadGenerator::new(WorkloadConfig::default());

    let ops1: Vec<_> = (0..100).map(|_| gen1.next_op(&mut rng1)).collect();
    let ops2: Vec<_> = (0..100).map(|_| gen2.next_op(&mut rng2)).collect();

    assert_ne!(ops1, ops2, "Different seeds should produce different workloads");
}

#[test]
fn workload_distribution() {
    let mut rng = Draws::seeded(42);
    let gen = WorkloadGenerator::new(WorkloadConfig::default());

    let ops: Vec<_> = (0..1000).map(|_| gen.next_op(&mut rng)).collect();

    let puts = ops.iter().filter(|op| matches!(op, Operation::Put { .. })).count();
    let gets = ops.iter().filter(|op| matches!(op, Operation::Get { .. })).count();
    let deletes = ops.iter().filter(|op| matches!(op, Operation::Delete { .. })).count();

    assert!(puts > 300 && puts < 500, "Expected ~400 puts, got {}", puts);
    assert!(gets > 300 && gets < 500, "Expected ~400 gets, got {}", gets);
    assert!(deletes > 50 && deletes < 150, "Expected ~100 deletes, got {}", deletes);
}

#[test]
fn key_generation() {
    let mut rng = Draws::seeded(42);
    let config = WorkloadConfig {
        key_space_size: 10,
        key_prefix: "test_".to_string(),
        ..Default::default()
    };
    let gen = WorkloadGenerator::new(config);

    for _ in 0..100 {
        let key = gen.random_key(&mut rng);
        let key_str = String::from_utf8_lossy(&key);
        assert!(key_str.starts_with("test_"));
        let num: u64 = key_str[5..].parse().unwrap();
        assert!(num < 10);
    }
}

#[test]
fn value_size_bounds() {
    let mut rng = Draws::seeded(42);
    let config =
        WorkloadConfig { min_value_size: 50, max_value_size: 100, ..Default::default() };
    let gen = WorkloadGenerator::new(config);

    for _ in 0..100 {
        let value = gen.random_value(&mut rng);
        assert!(value.len() >= 50);
        assert!(value.len() <= 100);
    }
}

#[test]
fn operation_log() {
    let mut log = OperationLog::new();

    log.record_write(Operation::Put { key: b"key1".to_vec(), value: b"value1".to_vec() });
    log.record_get(b"key1".to_vec(), Some(b"value1".to_vec()));
    log.record_write(Operation::Delete { key: b"key1".to_vec() });

    assert_eq!(log.len(), 3);
    assert_eq!(log.writes().len(), 2);
}

#[test]
fn the_log_keeps_what_happened() {
    let mut log = OperationLog::new();
    assert!(log.is_empty());
    log.record_failure(Operation::Flush);
    log.record_get(b"k".to_vec(), None);
    assert_eq!(log.ops()[0].seq, 0);
    assert!(!log.ops()[0].success);
    assert_eq!(log.ops()[1].seq, 1);
    assert_eq!(log.ops()[1].get_result, Some(None));
    assert_eq!(log.copy().len(), 2);
    log.clear();
    assert!(log.is_empty());
}

#[test]
fn operations_say_what_they_are() {
    let put = Operation::Put { key: b"k".to_vec(), value: b"v\xff".to_vec() };
    assert!(put.is_write());
    assert_eq!(put.key(), Some(&b"k".to_vec()));
    assert_eq!(put.copy(), put);
    assert!(Operation::Delete { key: b"k".to_vec() }.is_write());
    assert!(!Operation::Get { key: b"k".to_vec() }.is_write());
    assert_eq!(Operation::Compact.key(), None);
    assert!(put.describe().contains('k'));
    assert!(!Operation::Crash.describe().is_empty());
}

#[test]
fn configurations_weigh_their_operations() {
    let d = WorkloadConfig::default();
    assert_eq!(
        d.total_weight(),
        d.put_weight + d.get_weight + d.delete_weight + d.internal_weight
    );
    assert!(WorkloadConfig::write_heavy().put_weight > WorkloadConfig::write_heavy().get_weight);
    assert!(WorkloadConfig::read_heavy().get_weight > WorkloadConfig::read_heavy().put_weight);
    assert!(WorkloadConfig::stress().internal_weight > d.internal_weight);
    let gen = WorkloadGenerator::new(d.copy());
    let mut rng = Draws::seeded(6);
    assert_eq!(gen.generate_batch(&mut rng, 12).len(), 12);
    assert_eq!(gen.key_at(3), gen.key_at(3 + d.key_space_size));
    let value = gen.value_for_key(&mut rng, b"some", 4);
    assert!(!value.is_empty());
}

#[test]
fn batches_collect_operations() {
    let mut batch = OperationBatch::new();
    assert!(batch.is_empty());
    batch.put(b"a".to_vec(), b"1".to_vec());
    batch.delete(b"b".to_vec());
    assert_eq!(batch.len(), 2);
    assert_eq!(batch.ops()[1], Operation::Delete { key: b"b".to_vec() });
}

#[test]
fn the_generator_is_a_xorshift() {
    let mut rng = Draws::seeded(1);
    let mut s: u64 = 1;
    for _ in 0..100 {
        s ^= s << 13;
        s ^= s >> 7;
        s ^= s << 17;
        assert_eq!(rng.next(), s);
        assert_ne!(s, 0);
    }
    let mut zero = SimpleRng::new(0);
    assert_eq!(zero.next(), 0);
    assert_ne!(SimpleRng::seeded(0).next(), 0);
    assert_ne!(Draws::seeded(0).next(), 0);
    let mut a = Draws::seeded(33);
    let mut b = Draws::seeded(33);
    assert_eq!(a.next_usize(7), (b.next() as usize) % 7);
    assert_eq!(a.next_bytes(5).len(), 5);
}

#[test]
fn numbers_that_are_handed_in_are_drawn_in_turn() {
    let mut draws = Draws::listed(vec![7, 300, 5]);
    let taken: Vec<u64> = (0..7).map(|_| draws.next()).collect();
    assert_eq!(taken, vec![7, 300, 5, 7, 300, 5, 7]);
    assert_eq!(draws.next_usize(11), 300 % 11);
    assert_eq!(draws.next_below(3), 5 % 3);
    assert_eq!(draws.next_bytes(4), vec![7, 44, 5, 7]);
    assert_eq!(Draws::listed(vec![]).next(), 0);
}

#[test]
fn numbers_that_are_handed_in_decide_operations() {
    let config = WorkloadConfig {
        key_space_size: 10,
        key_prefix: String::from("k"),
        min_value_size: 2,
        max_value_size: 4,
        put_weight: 2,
        get_weight: 2,
        delete_weight: 1,
        internal_weight: 1,
    };
    let gen = WorkloadGenerator::new(config);
    let key = |n: u64| format!("k{:05}", n).into_bytes();
    // The kind, the key, the size over the smallest, and the bytes.
    let mut draws = Draws::listed(vec![1, 13, 4, 9, 8, 7]);
    assert_eq!(gen.next_op(&mut draws), Operation::Put { key: key(3), value: vec![9, 8, 7] });
    let mut draws = Draws::listed(vec![3, 4, 4, 6, 5, 2, 5, 1]);
    assert_eq!(gen.next_op(&mut draws), Operation::Get { key: key(4) });
    assert_eq!(gen.next_op(&mut draws), Operation::Delete { key: key(6) });
    assert_eq!(gen.next_op(&mut draws), Operation::Flush);
    assert_eq!(gen.next_op(&mut draws), Operation::Compact);
}
