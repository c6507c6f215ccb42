use crackeddb::disk::Disk;
use crackeddb::engine::{EngineConfig, LsmEngine};
use crackeddb::rng::SimpleRng;
use crackeddb::txn_run::{
    CommitOutcome, InitOutcome, TxnAction, TxnReply, TxnRun, TxnRunMode,
};
use crackeddb::txn_stress::{
    choose_op, write_skew_result, write_skew_seeds, TxnChoice, TxnStressConfig, TxnStressResult,
    TxnStressWithCrashesResult, WriteSkewTestResult, BATCH_SIZE, EVEN_READ_BELOW, ODD_READ_BELOW,
    OWN_KEY_BELOW,
};

/// A transaction over a snapshot of a store.
struct Txn {
    id: u64,
    begin_ts: u64,
    reads: Vec<Vec<u8>>,
    writes: Vec<(Vec<u8>, Vec<u8>)>,
}

/// A store whose transactions read a snapshot and abort where a key that they read or wrote was
/// written after they began.
struct Store {
    engine: Option<LsmEngine>,
    clock: u64,
    next_id: u64,
}

impl Store {
    fn open(disk: Disk) -> Store {
        let engine = LsmEngine::open(disk, EngineConfig::default()).unwrap();
        let clock = engine.max_commit_ts() + 1;
        Store { engine: Some(engine), clock, next_id: 1 }
    }

    fn engine(&mut self) -> &mut LsmEngine {
        self.engine.as_mut().unwrap()
    }

    fn crash(&mut self) {
        let mut disk = self.engine.take().unwrap().into_disk();
        disk.simulate_crash();
        let next_id = self.next_id;
        *self = Store::open(disk);
        self.next_id = next_id;
    }

    fn begin(&mut self) -> Txn {
        let id = self.next_id;
        self.next_id += 1;
        Txn { id, begin_ts: self.clock, reads: Vec::new(), writes: Vec::new() }
    }

    fn read(&mut self, txn: &mut Txn, key: &[u8]) -> Option<Vec<u8>> {
        txn.reads.push(key.to_vec());
        if let Some((_, v)) = txn.writes.iter().rev().find(|(k, _)| k == key) {
            return Some(v.clone());
        }
        self.engine().get_at(key, txn.begin_ts).unwrap()
    }

    fn commit(&mut self, txn: Txn) -> Option<u64> {
        let begin_ts = txn.begin_ts;
        for key in txn.reads.iter().chain(txn.writes.iter().map(|(k, _)| k)) {
            if !txn.writes.is_empty() && self.engine().has_write_after(key, begin_ts).unwrap() {
                return None;
            }
        }
        self.clock += 1;
        let ts = self.clock;
        let writes = txn.writes.into_iter().map(|(k, v)| (k, Some(v))).collect::<Vec<_>>();
        if !writes.is_empty() {
            self.engine().put_versioned_batch(ts, writes).unwrap();
            self.engine().wal_sync();
        }
        Some(ts)
    }
}

const CHECKED: TxnRunMode = TxnRunMode {
    check_history: true,
    verify_values: false,
    max_crashes: 0,
    crash_below: 0,
};

const PLAIN: TxnRunMode = TxnRunMode {
    check_history: false,
    verify_values: false,
    max_crashes: 0,
    crash_below: 0,
};

fn drive(seed: u64, config: TxnStressConfig, mode: TxnRunMode) -> TxnRun {
    let mut store = Store::open(Disk::new());
    let mut batch: Vec<Option<Txn>> = Vec::new();
    let (mut run, mut action) = TxnRun::new(seed, config, mode);
    loop {
        let reply = match action {
            TxnAction::Open => TxnReply::Opened(Ok(())),
            TxnAction::InitKey { key, value } => {
                let mut txn = store.begin();
                txn.writes.push((key, value));
                TxnReply::InitDone(match store.commit(txn) {
                    Some(_) => InitOutcome::Committed,
                    None => InitOutcome::Aborted,
                })
            }
            TxnAction::CrashAndReopen => {
                store.crash();
                TxnReply::Reopened(Ok(()))
            }
            TxnAction::VerifyRead { key } => {
                let mut txn = store.begin();
                TxnReply::VerifyDone(Ok(store.read(&mut txn, &key)))
            }
            TxnAction::BeginBatch { count } => {
                assert!(count >= 1 && count <= BATCH_SIZE);
                batch = (0..count).map(|_| Some(store.begin())).collect();
                TxnReply::Began(
                    batch.iter().map(|t| t.as_ref().unwrap()).map(|t| (t.id, t.begin_ts)).collect(),
                )
            }
            TxnAction::Read { txn, key } => {
                let t = batch[txn].as_mut().unwrap();
                TxnReply::ReadDone(Some(store.read(t, &key)))
            }
            TxnAction::Write { txn, key, value } => {
                batch[txn].as_mut().unwrap().writes.push((key, value));
                TxnReply::WriteDone(true)
            }
            TxnAction::Commit { txn } => {
                let t = batch[txn].take().unwrap();
                TxnReply::CommitDone(match store.commit(t) {
                    Some(commit_ts) => CommitOutcome::Committed { commit_ts },
                    None => CommitOutcome::Aborted,
                })
            }
            TxnAction::Finish => break,
        };
        action = run.step(reply);
    }
    assert!(run.is_finished());
    run
}

fn run_txn_stress_test(seed: u64, config: TxnStressConfig) -> TxnStressResult {
    drive(seed, config, CHECKED).result()
}

fn run_txn_stress_via_kv(seed: u64, config: TxnStressConfig) -> TxnStressResult {
    drive(seed, config, PLAIN).result()
}

fn abort_percentage(results: &[TxnStressResult]) -> f64 {
    let total_aborted: u64 = results.iter().map(|r| r.aborted_txns).sum();
    let total_txns: u64 = results.iter().map(|r| r.total_txns).sum();
    (total_aborted as f64 / total_txns as f64) * 100.0
}

fn explicit_write_skew() -> WriteSkewTestResult {
    let mut store = Store::open(Disk::new());
    let mut init = store.begin();
    init.writes.push((b"X".to_vec(), b"0".to_vec()));
    init.writes.push((b"Y".to_vec(), b"0".to_vec()));
    store.commit(init).unwrap();

    let mut t1 = store.begin();
    let mut t2 = store.begin();
    for t in [&mut t1, &mut t2] {
        assert_eq!(store.read(t, b"X"), Some(b"0".to_vec()));
        assert_eq!(store.read(t, b"Y"), Some(b"0".to_vec()));
    }
    t1.writes.push((b"X".to_vec(), b"1".to_vec()));
    t2.writes.push((b"Y".to_vec(), b"1".to_vec()));
    let first = store.commit(t1).is_some();
    let second = store.commit(t2).is_some();
    write_skew_result(1, first, 2, second)
}

#[test]
fn txn_stress_basic() {
    let config = TxnStressConfig::default();
    let result = run_txn_stress_test(0xDEADBEEF, config);
    assert!(result.passed, "Basic stress test failed: {:?}", result);
    assert_eq!(result.total_txns, 10);
}

#[test]
fn txn_stress_write_skew_config() {
    let config = TxnStressConfig::write_skew();
    let result = run_txn_stress_test(42, config);
    assert!(result.passed, "Write skew config test failed: {:?}", result);
}

#[test]
fn txn_stress_heavy_contention() {
    let config = TxnStressConfig::heavy_contention();
    let result = run_txn_stress_test(123456, config);
    assert!(result.passed, "Heavy contention test failed: {:?}", result);
}

#[test]
fn txn_stress_multiple_seeds() {
    let config = TxnStressConfig::default();
    for seed in 0..10 {
        let result = run_txn_stress_test(seed, config);
        assert!(result.passed, "Seed {} failed: {:?}", result.seed, result);
    }
}

#[test]
fn txn_stress_100_seeds() {
    let config = TxnStressConfig::default();
    let results: Vec<_> = (0..100).map(|seed| run_txn_stress_test(seed, config)).collect();
    let failures: Vec<_> = results.iter().filter(|r| !r.passed).collect();
    assert!(
        failures.is_empty(),
        "Failed seeds: {:?}",
        failures.iter().map(|r| r.seed).collect::<Vec<_>>()
    );

    let abort_rate = abort_percentage(&results);
    assert!(
        abort_rate > 5.0,
        "Abort rate too low ({:.2}%): stress test not exercising SSI conflicts",
        abort_rate
    );
}

#[test]
fn write_skew_prevention() {
    for seed in write_skew_seeds(0xCAFEBABE, 10) {
        let result = run_txn_stress_test(seed, TxnStressConfig::write_skew());
        assert!(result.passed, "Write skew test failed for seed {}: {:?}", result.seed, result);
    }
}

#[test]
fn explicit_write_skew_prevention() {
    let result = explicit_write_skew();
    assert!(result.prevented, "SSI failed to prevent write skew: {:?}", result.error);
    assert_eq!(result.aborted, vec![2]);
}

#[test]
fn txn_stress_via_kv_basic() {
    let config = TxnStressConfig::default();
    let result = run_txn_stress_via_kv(0xDEADBEEF, config);
    assert!(result.passed, "kv stress test failed: {:?}", result);
}

#[test]
fn txn_stress_via_kv_write_skew_config() {
    let config = TxnStressConfig::write_skew();
    let result = run_txn_stress_via_kv(42, config);
    assert!(result.passed, "kv write skew test failed: {:?}", result);
}

#[test]
fn txn_stress_via_kv_heavy_contention() {
    let config = TxnStressConfig::heavy_contention();
    let result = run_txn_stress_via_kv(123456, config);
    assert!(result.passed, "kv heavy contention test failed: {:?}", result);
}

#[test]
fn txn_stress_via_kv_multiple_seeds() {
    let config = TxnStressConfig::default();
    for seed in 0..10 {
        let result = run_txn_stress_via_kv(seed, config);
        assert!(result.passed, "kv seed {} failed: {:?}", result.seed, result);
    }
}

#[test]
fn txn_stress_via_kv_50_seeds() {
    let config = TxnStressConfig::default();
    let results: Vec<_> = (0..50).map(|seed| run_txn_stress_via_kv(seed, config)).collect();
    assert!(results.iter().all(|r| r.passed));
    let abort_rate = abort_percentage(&results);
    assert!(
        abort_rate > 5.0,
        "kv abort rate too low ({:.2}%): test not exercising SSI conflicts",
        abort_rate
    );
}

#[test]
fn txn_stress_with_crashes_via_kv() {
    let config = TxnStressConfig {
        num_transactions: 50,
        num_keys: 10,
        ops_per_txn: 5,
        read_probability: 300_000,
    };

    let mode = TxnRunMode {
        check_history: false,
        verify_values: true,
        max_crashes: 5,
        crash_below: (0.15 * u64::MAX as f64) as u128,
    };
    let result: TxnStressWithCrashesResult = drive(12345, config, mode).crash_result();

    assert!(result.passed, "kv crash stress test failed: {:?}", result.failure);
    assert!(result.crashes > 0, "Should have had some crashes, got {}", result.crashes);
    assert!(result.crashes <= 5);
    assert_eq!(result.total_txns, 50);
    assert_eq!(result.committed_txns + result.aborted_txns, 50);
    assert!(result.summary().starts_with("PASS: "));
}

#[test]
fn txn_id_collision_caught_by_recovery() {
    let mut store = Store::open(Disk::new());
    let mut last = 0u64;
    for i in 0..10 {
        let mut txn = store.begin();
        txn.writes.push((format!("key_{}", i).into_bytes(), b"value".to_vec()));
        if let Some(ts) = store.commit(txn) {
            last = ts;
        }
    }
    assert!(last > 0, "Should have committed at least one transaction");
    store.engine().flush().unwrap();
    store.crash();

    let mut txn = store.begin();
    assert!(
        txn.begin_ts > last,
        "New transaction begin_ts {} should be > last commit_ts {} to prevent ID collision",
        txn.begin_ts,
        last
    );
    assert!(store.read(&mut txn, b"key_0").is_some(), "Data should survive crash recovery");
}

fn next_f64(n: u64) -> f64 {
    (n as f64) / (u64::MAX as f64)
}

#[test]
fn draws_fall_below_their_fractions() {
    for (below, fraction) in
        [(OWN_KEY_BELOW, 0.7f64), (EVEN_READ_BELOW, 0.8), (ODD_READ_BELOW, 0.3)]
    {
        assert!(next_f64(below - 1) < fraction);
        assert!(!(next_f64(below) < fraction));
        for step in [1u64, 100, 1 << 20, 1 << 40, 1 << 60] {
            assert!(next_f64(below.saturating_sub(step)) < fraction);
            assert!(!(next_f64(below.saturating_add(step)) < fraction));
        }
    }
}

#[test]
fn transactions_choose_as_their_draws_say() {
    // The same steps with fractions in place of thresholds.
    for seed in 1..200u64 {
        let mut rng = SimpleRng::new(seed);
        let mut plain = SimpleRng::new(seed);
        for txn in 0..6usize {
            for round in 0..4usize {
                let base = txn % 5;
                let offset =
                    if next_f64(plain.next()) < 0.7 { 0 } else { plain.next_usize(5) };
                let key = format!("key{}", (base + offset) % 5).into_bytes();
                let limit = if round % 2 == 0 { 0.8 } else { 0.3 };
                let reads = next_f64(plain.next()) < limit;
                match choose_op(&mut rng, txn, round, 5) {
                    TxnChoice::Read { key: k } => {
                        assert!(reads);
                        assert_eq!(k, key);
                    }
                    TxnChoice::Write { key: k, value } => {
                        assert!(!reads);
                        assert_eq!(k, key);
                        assert_eq!(
                            value,
                            format!("v{}_{}", txn, plain.next()).into_bytes()
                        );
                    }
                }
            }
        }
    }
}

fn failure_of(run: &TxnRun) -> String {
    assert!(run.is_finished());
    let r = run.result();
    assert!(!r.passed);
    r.failure.unwrap()
}

#[test]
fn a_run_fails_where_its_database_fails() {
    let config = TxnStressConfig { num_transactions: 1, num_keys: 1, ..Default::default() };
    let (mut run, _) = TxnRun::new(1, config, PLAIN);
    run.step(TxnReply::Opened(Err("disk gone".to_string())));
    assert_eq!(failure_of(&run), "Failed to open database: disk gone");
    assert_eq!(run.result().total_txns, 0);

    for (outcome, text) in [
        (InitOutcome::PutFailed("full".to_string()), "Failed to initialize key: full"),
        (InitOutcome::Aborted, "Unexpected SSI abort during init"),
        (InitOutcome::CommitFailed("torn".to_string()), "Failed to commit init: torn"),
    ] {
        let (mut run, _) = TxnRun::new(1, config, PLAIN);
        run.step(TxnReply::Opened(Ok(())));
        run.step(TxnReply::InitDone(outcome));
        assert_eq!(failure_of(&run), text);
    }

    let quiet = TxnStressConfig { ops_per_txn: 0, ..config };
    let (mut run, _) = TxnRun::new(1, quiet, PLAIN);
    run.step(TxnReply::Opened(Ok(())));
    run.step(TxnReply::InitDone(InitOutcome::Committed));
    run.step(TxnReply::Began(vec![(1, 1)]));
    run.step(TxnReply::CommitDone(CommitOutcome::Failed("broken".to_string())));
    assert_eq!(failure_of(&run), "Commit error: broken");
    assert_eq!(run.result().total_txns, 1);
    assert_eq!(run.result().committed_txns, 0);
}

#[test]
fn lost_values_are_found_after_a_crash() {
    let config = TxnStressConfig {
        num_transactions: 1,
        num_keys: 1,
        ops_per_txn: 0,
        read_probability: 0,
    };
    let mode = TxnRunMode {
        check_history: false,
        verify_values: true,
        max_crashes: 1,
        crash_below: 1 << 64,
    };
    let start = || {
        let (mut run, _) = TxnRun::new(5, config, mode);
        run.step(TxnReply::Opened(Ok(())));
        let action = run.step(TxnReply::InitDone(InitOutcome::Committed));
        assert!(matches!(action, TxnAction::CrashAndReopen));
        run
    };

    let mut run = start();
    run.step(TxnReply::Reopened(Err("locked".to_string())));
    assert_eq!(failure_of(&run), "Failed to reopen after crash: locked");

    for (reply, text) in [
        (
            Ok(Some(b"1".to_vec())),
            "Durability violation: key [107, 101, 121, 48] expected [48], got [49]",
        ),
        (Ok(None), "Durability violation: key [107, 101, 121, 48] missing after crash"),
        (Err("bad block".to_string()), "Read error after crash: bad block"),
    ] {
        let mut run = start();
        let action = run.step(TxnReply::Reopened(Ok(())));
        assert!(matches!(action, TxnAction::VerifyRead { .. }));
        run.step(TxnReply::VerifyDone(reply));
        assert_eq!(failure_of(&run), text);
        assert_eq!(run.crash_result().crashes, 1);
    }

    for (reply, text) in [
        (
            Ok(Some(b"1".to_vec())),
            "Final verification failed: key [107, 101, 121, 48] expected [48], got [49]",
        ),
        (Ok(None), "Final verification failed: key [107, 101, 121, 48] missing"),
        (Err("bad block".to_string()), "Final read error: bad block"),
    ] {
        let mut run = start();
        run.step(TxnReply::Reopened(Ok(())));
        run.step(TxnReply::VerifyDone(Ok(Some(b"0".to_vec()))));
        run.step(TxnReply::Began(vec![(1, 1)]));
        let action = run.step(TxnReply::CommitDone(CommitOutcome::Aborted));
        assert!(matches!(action, TxnAction::VerifyRead { .. }));
        run.step(TxnReply::VerifyDone(reply));
        assert_eq!(failure_of(&run), text);
    }
}

#[test]
fn a_history_with_a_cycle_fails_its_run() {
    // Two transactions of a batch that both miss what the other writes.
    let config = TxnStressConfig {
        num_transactions: 4,
        num_keys: 1,
        ops_per_txn: 8,
        read_probability: 0,
    };
    let (mut run, mut action) = TxnRun::new(3, config, CHECKED);
    let mut ts = 10;
    loop {
        let reply = match action {
            TxnAction::Open => TxnReply::Opened(Ok(())),
            TxnAction::InitKey { .. } => TxnReply::InitDone(InitOutcome::Committed),
            TxnAction::BeginBatch { count } => {
                TxnReply::Began((0..count as u64).map(|i| (i + 1, 1)).collect())
            }
            TxnAction::Read { .. } => TxnReply::ReadDone(Some(Some(b"0".to_vec()))),
            TxnAction::Write { .. } => TxnReply::WriteDone(true),
            TxnAction::Commit { .. } => {
                ts += 1;
                TxnReply::CommitDone(CommitOutcome::Committed { commit_ts: ts })
            }
            TxnAction::Finish => break,
            other => panic!("unexpected action {:?}", other),
        };
        action = run.step(reply);
    }
    let text = failure_of(&run);
    assert!(text.starts_with("Non-serializable schedule detected. Cycle: T"), "{}", text);
    assert_eq!(run.result().committed_txns, 4);
}

#[test]
fn results_sum_themselves_up() {
    let r = TxnStressResult {
        passed: true,
        seed: 0xAB,
        total_txns: 10,
        committed_txns: 7,
        aborted_txns: 3,
        failure: None,
    };
    assert_eq!(
        r.summary(),
        "PASS: 7/10 committed, 3 aborted (SSI), seed=0x00000000000000AB"
    );
    let r = TxnStressResult { passed: false, failure: None, ..r };
    assert_eq!(r.summary(), "FAIL: 7/10 committed, seed=0x00000000000000AB\n  unknown");
    let r = TxnStressWithCrashesResult {
        passed: false,
        seed: 1,
        total_txns: 2,
        committed_txns: 1,
        aborted_txns: 0,
        crashes: 4,
        failure: Some("why".to_string()),
    };
    assert_eq!(
        r.summary(),
        "FAIL: 1/2 committed, 4 crashes, seed=0x0000000000000001\n  why"
    );
    let open = write_skew_result(1, true, 2, true);
    assert!(!open.prevented);
    assert_eq!(open.error.as_deref(), Some("Write skew NOT prevented: both T1 and T2 committed"));
    assert_eq!(write_skew_result(1, false, 2, false).aborted, vec![1, 2]);
    assert_eq!(write_skew_seeds(u64::MAX, 3), vec![u64::MAX, 0, 1]);
}
