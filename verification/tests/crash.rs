use crackeddb::compaction::CompactionConfig;
use crackeddb::disk::Disk;
use crackeddb::engine::{EngineConfig, LsmEngine};
use crackeddb::rng::SimpleRng;
use std::collections::HashMap;

fn b(s: &str) -> Vec<u8> {
    s.as_bytes().to_vec()
}

#[test]
fn synced_writes_survive_crash() {
    let mut disk = {
        let mut engine = LsmEngine::open(Disk::new(), EngineConfig::default()).unwrap();
        engine.put(b"key1", b"value1").unwrap();
        engine.put(b"key2", b"value2").unwrap();
        engine.put(b"key3", b"value3").unwrap();
        engine.into_disk()
    };

    disk.simulate_crash();

    let engine = LsmEngine::open(disk, EngineConfig::default()).unwrap();
    assert_eq!(engine.get(b"key1").unwrap(), Some(b("value1")));
    assert_eq!(engine.get(b"key2").unwrap(), Some(b("value2")));
    assert_eq!(engine.get(b"key3").unwrap(), Some(b("value3")));
}

#[test]
fn multiple_crash_recovery_cycles() {
    let mut disk = Disk::new();

    for cycle in 0..5 {
        let mut engine = LsmEngine::open(disk, EngineConfig::default()).unwrap();

        let key = format!("cycle_{}_key", cycle);
        let value = format!("cycle_{}_value", cycle);
        engine.put(key.as_bytes(), value.as_bytes()).unwrap();

        for prev_cycle in 0..cycle {
            let prev_key = format!("cycle_{}_key", prev_cycle);
            let prev_value = format!("cycle_{}_value", prev_cycle);
            assert_eq!(
                engine.get(prev_key.as_bytes()).unwrap(),
                Some(b(&prev_value)),
                "Failed to read data from cycle {} in cycle {}",
                prev_cycle,
                cycle
            );
        }

        disk = engine.into_disk();
        disk.simulate_crash();
    }

    let engine = LsmEngine::open(disk, EngineConfig::default()).unwrap();
    for cycle in 0..5 {
        let key = format!("cycle_{}_key", cycle);
        let value = format!("cycle_{}_value", cycle);
        assert_eq!(
            engine.get(key.as_bytes()).unwrap(),
            Some(b(&value)),
            "Missing data from cycle {}",
            cycle
        );
    }
}

#[test]
fn delete_survives_crash() {
    let mut disk = {
        let mut engine = LsmEngine::open(Disk::new(), EngineConfig::default()).unwrap();
        engine.put(b"key1", b"value1").unwrap();
        engine.put(b"key2", b"value2").unwrap();
        engine.delete(b"key1").unwrap();
        engine.into_disk()
    };

    disk.simulate_crash();

    let engine = LsmEngine::open(disk, EngineConfig::default()).unwrap();
    assert_eq!(engine.get(b"key1").unwrap(), None);
    assert_eq!(engine.get(b"key2").unwrap(), Some(b("value2")));
}

#[test]
fn crash_during_flush_recovers_from_wal() {
    let config = EngineConfig { memtable_size: 512, ..Default::default() };

    let mut disk = {
        let mut engine = LsmEngine::open(Disk::new(), config).unwrap();

        for i in 0..100 {
            let key = format!("key{:05}", i);
            let value = format!("value{:05}", i);
            engine.put(key.as_bytes(), value.as_bytes()).unwrap();
        }

        engine.flush().unwrap();
        engine.into_disk()
    };

    disk.simulate_crash();

    let engine = LsmEngine::open(disk, config).unwrap();

    for i in 0..100 {
        let key = format!("key{:05}", i);
        let expected = format!("value{:05}", i);
        assert_eq!(
            engine.get(key.as_bytes()).unwrap(),
            Some(b(&expected)),
            "Failed to recover key {}",
            key
        );
    }
}

#[test]
fn mvcc_versions_survive_crash() {
    let mut engine = LsmEngine::open(Disk::new(), EngineConfig::default()).unwrap();
    engine.put(b"key", b"version1").unwrap();
    let seq_v1 = engine.sequence();
    engine.put(b"key", b"version2").unwrap();
    let seq_v2 = engine.sequence();
    engine.put(b"key", b"version3").unwrap();

    let mut disk = engine.into_disk();
    disk.simulate_crash();

    let engine = LsmEngine::open(disk, EngineConfig::default()).unwrap();

    assert_eq!(engine.get(b"key").unwrap(), Some(b("version3")));
    assert_eq!(engine.get_at(b"key", seq_v1 - 1).unwrap(), Some(b("version1")));
    assert_eq!(engine.get_at(b"key", seq_v2 - 1).unwrap(), Some(b("version2")));
}

#[test]
fn large_wal_recovery() {
    let mut disk = {
        let mut engine = LsmEngine::open(Disk::new(), EngineConfig::default()).unwrap();

        for i in 0..1000 {
            let key = format!("large_key_{:05}", i);
            let value = format!("large_value_{:05}", i);
            engine.put(key.as_bytes(), value.as_bytes()).unwrap();
        }
        engine.into_disk()
    };

    disk.simulate_crash();

    let engine = LsmEngine::open(disk, EngineConfig::default()).unwrap();

    for i in 0..1000 {
        let key = format!("large_key_{:05}", i);
        let expected = format!("large_value_{:05}", i);
        assert_eq!(
            engine.get(key.as_bytes()).unwrap(),
            Some(b(&expected)),
            "Missing key {} after large WAL recovery",
            key
        );
    }
}

fn run_scenario(seed: u64) -> Vec<Option<Vec<u8>>> {
    let mut rng = SimpleRng::new(seed);
    let mut engine = LsmEngine::open(Disk::new(), EngineConfig::default()).unwrap();

    for i in 0..50 {
        let op = rng.next() % 3;
        match op {
            0 => {
                let key = format!("key{}", i);
                let value = format!("value{}", rng.next());
                engine.put(key.as_bytes(), value.as_bytes()).unwrap();
            }
            1 => {
                let key = format!("key{}", i % 10);
                let value = format!("overwrite{}", rng.next());
                engine.put(key.as_bytes(), value.as_bytes()).unwrap();
            }
            _ => {
                let key = format!("key{}", i % 5);
                engine.delete(key.as_bytes()).unwrap();
            }
        }
    }

    let mut disk = engine.into_disk();
    disk.simulate_crash();

    let engine = LsmEngine::open(disk, EngineConfig::default()).unwrap();

    (0..50)
        .map(|i| {
            let key = format!("key{}", i);
            engine.get(key.as_bytes()).unwrap()
        })
        .collect()
}

#[test]
fn deterministic_crash_recovery() {
    let results1 = run_scenario(12345);
    let results2 = run_scenario(12345);

    assert_eq!(results1, results2, "Crash recovery must be deterministic");
}

#[test]
fn recovery_after_compaction() {
    let config = EngineConfig {
        memtable_size: 256,
        compaction: CompactionConfig { l0_compaction_trigger: 2, ..Default::default() },
        ..Default::default()
    };

    let mut engine = LsmEngine::open(Disk::new(), config).unwrap();

    for batch in 0..4 {
        for i in 0..25 {
            let key = format!("batch{}_key{:03}", batch, i);
            let value = format!("value{:03}", i);
            engine.put(key.as_bytes(), value.as_bytes()).unwrap();
        }
        engine.flush().unwrap();
    }

    while engine.maybe_compact().unwrap() {}

    let mut disk = engine.into_disk();
    disk.simulate_crash();

    let engine = LsmEngine::open(disk, config).unwrap();

    for batch in 0..4 {
        for i in 0..25 {
            let key = format!("batch{}_key{:03}", batch, i);
            let expected = format!("value{:03}", i);
            assert_eq!(
                engine.get(key.as_bytes()).unwrap(),
                Some(b(&expected)),
                "Missing {} after compaction recovery",
                key
            );
        }
    }
}

#[test]
fn stress_test_random_ops_with_crashes() {
    let mut rng = SimpleRng::new(42);
    let config = EngineConfig { memtable_size: 2048, ..Default::default() };
    let mut disk = Disk::new();

    for crash_cycle in 0..5 {
        let mut cycle_state: HashMap<String, Option<String>> = HashMap::new();

        let mut engine = LsmEngine::open(disk, config).unwrap();

        for i in 0..20 {
            let key = format!("stress_key_{:02}", i);
            let val = engine.get(key.as_bytes()).unwrap();
            match val {
                Some(v) => {
                    cycle_state.insert(key, Some(String::from_utf8_lossy(&v).to_string()));
                }
                None => {
                    cycle_state.insert(key, None);
                }
            }
        }

        for _ in 0..20 {
            let key_num = rng.next() % 20;
            let key = format!("stress_key_{:02}", key_num);

            let op = rng.next() % 3;
            match op {
                0 | 1 => {
                    let value = format!("v{}_{}", crash_cycle, rng.next() % 1000);
                    engine.put(key.as_bytes(), value.as_bytes()).unwrap();
                    cycle_state.insert(key, Some(value));
                }
                _ => {
                    engine.delete(key.as_bytes()).unwrap();
                    cycle_state.insert(key, None);
                }
            }
        }

        disk = engine.into_disk();
        disk.simulate_crash();

        let engine = LsmEngine::open(disk, config).unwrap();

        for (key, expected) in &cycle_state {
            let actual = engine.get(key.as_bytes()).unwrap();
            match expected {
                Some(v) => assert_eq!(
                    actual,
                    Some(b(v)),
                    "Cycle {}: mismatch for key {}",
                    crash_cycle,
                    key
                ),
                None => assert_eq!(
                    actual, None,
                    "Cycle {}: key {} should be deleted",
                    crash_cycle, key
                ),
            }
        }
        disk = engine.into_disk();
    }
}

#[test]
fn compaction_crash_safety() {
    let config = EngineConfig {
        memtable_size: 256,
        compaction: CompactionConfig { l0_compaction_trigger: 2, ..Default::default() },
        ..Default::default()
    };

    let mut engine = LsmEngine::open(Disk::new(), config).unwrap();

    for i in 0..50 {
        let key = format!("compact_key_{:03}", i);
        let value = format!("value_{:03}", i);
        engine.put(key.as_bytes(), value.as_bytes()).unwrap();
    }
    engine.flush().unwrap();

    let mut disk = engine.into_disk();
    disk.simulate_crash();

    let mut engine = LsmEngine::open(disk, config).unwrap();

    for i in 0..50 {
        let key = format!("compact_key_{:03}", i);
        let expected = format!("value_{:03}", i);
        assert_eq!(
            engine.get(key.as_bytes()).unwrap(),
            Some(b(&expected)),
            "Missing key {} after crash",
            key
        );
    }

    while engine.maybe_compact().unwrap() {}

    let mut disk = engine.into_disk();
    disk.simulate_crash();

    let engine = LsmEngine::open(disk, config).unwrap();

    for i in 0..50 {
        let key = format!("compact_key_{:03}", i);
        let expected = format!("value_{:03}", i);
        assert_eq!(
            engine.get(key.as_bytes()).unwrap(),
            Some(b(&expected)),
            "Missing key {} after compaction and crash",
            key
        );
    }
}

#[test]
fn sequence_number_preserved_across_crash() {
    let mut engine = LsmEngine::open(Disk::new(), EngineConfig::default()).unwrap();

    for i in 0..10 {
        engine.put(format!("key{}", i).as_bytes(), b"value").unwrap();
    }
    let final_seq = engine.sequence();

    let mut disk = engine.into_disk();
    disk.simulate_crash();

    let engine = LsmEngine::open(disk, EngineConfig::default()).unwrap();

    assert!(
        engine.sequence() >= final_seq,
        "Sequence number should not decrease after recovery"
    );
}

#[test]
fn phase1_acceptance_1000_crashes() {
    const CRASH_CYCLES: usize = 1000;
    const SEED: u64 = 0xDEADBEEF;

    let mut rng = SimpleRng::new(SEED);
    let config = EngineConfig {
        memtable_size: 1024,
        compaction: CompactionConfig { l0_compaction_trigger: 4, ..Default::default() },
        ..Default::default()
    };

    let mut disk = Disk::new();
    let mut expected_state: HashMap<String, Option<Vec<u8>>> = HashMap::new();

    for cycle in 0..CRASH_CYCLES {
        let mut engine = LsmEngine::open(disk, config).unwrap();

        let num_ops = (rng.next_below(10) + 1) as usize;
        for _ in 0..num_ops {
            let key_num = rng.next_below(50);
            let key = format!("k{:03}", key_num);

            match rng.next_below(10) {
                0..=6 => {
                    let value = format!("v{}_c{}", rng.next() % 10000, cycle);
                    engine.put(key.as_bytes(), value.as_bytes()).unwrap();
                    expected_state.insert(key, Some(value.into_bytes()));
                }
                7..=8 => {
                    engine.delete(key.as_bytes()).unwrap();
                    expected_state.insert(key, None);
                }
                _ => {
                    let actual = engine.get(key.as_bytes()).unwrap();
                    if let Some(expected) = expected_state.get(&key) {
                        match expected {
                            Some(v) => assert_eq!(
                                actual.as_deref(),
                                Some(v.as_slice()),
                                "Cycle {}: value mismatch for key {}",
                                cycle,
                                key
                            ),
                            None => assert_eq!(
                                actual, None,
                                "Cycle {}: key {} should be deleted",
                                cycle, key
                            ),
                        }
                    }
                }
            }
        }

        if rng.next_below(5) == 0 {
            let _ = engine.maybe_compact();
        }

        disk = engine.into_disk();
        disk.simulate_crash();

        let engine = LsmEngine::open(disk, config).unwrap();

        for (key, expected) in &expected_state {
            let actual = engine.get(key.as_bytes()).unwrap();
            match expected {
                Some(v) => assert_eq!(
                    actual.as_deref(),
                    Some(v.as_slice()),
                    "Cycle {}: post-crash value mismatch for key {}",
                    cycle,
                    key
                ),
                None => assert_eq!(
                    actual, None,
                    "Cycle {}: post-crash key {} should be deleted",
                    cycle, key
                ),
            }
        }
        disk = engine.into_disk();
    }
}

#[test]
fn tombstone_regression_seed_0xdeadbeef_cycle_185() {
    let config = EngineConfig {
        memtable_size: 256,
        compaction: CompactionConfig { l0_compaction_trigger: 2, ..Default::default() },
        ..Default::default()
    };

    let mut engine = LsmEngine::open(Disk::new(), config).unwrap();

    engine.put(b"k", b"v").unwrap();
    engine.flush().unwrap();

    assert_eq!(
        engine.get(b"k").unwrap(),
        Some(b("v")),
        "Value should be readable after flush"
    );

    engine.compact_all().unwrap();

    engine.delete(b"k").unwrap();

    assert_eq!(
        engine.get(b"k").unwrap(),
        None,
        "Key should be deleted (tombstone in memtable)"
    );

    engine.flush().unwrap();

    assert_eq!(
        engine.get(b"k").unwrap(),
        None,
        "Key should be deleted (tombstone in L0 SSTable)"
    );

    engine.compact_all().unwrap();

    assert_eq!(
        engine.get(b"k").unwrap(),
        None,
        "tombstone in L0 must suppress older value in L1 after compaction"
    );

    let mut disk = engine.into_disk();
    disk.simulate_crash();

    let engine = LsmEngine::open(disk, config).unwrap();
    assert_eq!(engine.get(b"k").unwrap(), None, "tombstone must survive crash recovery");
}
