use crackeddb::invariants::{
    check_durability, check_no_phantom_data, check_read_your_writes, check_scan_correctness,
    check_scan_order, full_verification, spot_check, verify_recovery, InvariantChecker,
    InvariantConfig, InvariantReport, InvariantResult,
};
use crackeddb::model::Model;
use crackeddb::rng::Draws;
use crackeddb::serialization::{
    check_serializability, CompletedTransaction, DependencyType, SerializationChecker,
    TxnOperation,
};

fn read(key: &str, value: Option<&str>) -> TxnOperation {
    TxnOperation::Read {
        key: key.as_bytes().to_vec(),
        value: value.map(|v| v.as_bytes().to_vec()),
    }
}

fn write(key: &str, value: &str) -> TxnOperation {
    TxnOperation::Write {
        key: key.as_bytes().to_vec(),
        value: Some(value.as_bytes().to_vec()),
    }
}

fn committed(
    txn_id: u64,
    begin_ts: u64,
    commit_ts: u64,
    operations: Vec<TxnOperation>,
) -> CompletedTransaction {
    CompletedTransaction { txn_id, begin_ts, commit_ts, committed: true, operations }
}

#[test]
fn durability_check_passes() {
    let mut model = Model::new();
    model.put(b"key1", b"value1");
    model.put(b"key2", b"value2");

    let result = check_durability(&model, |key: &[u8]| match key {
        b"key1" => Some(b"value1".to_vec()),
        b"key2" => Some(b"value2".to_vec()),
        _ => None,
    });

    assert!(result.passed);
}

#[test]
fn durability_check_fails_on_mismatch() {
    let mut model = Model::new();
    model.put(b"key1", b"value1");

    let result = check_durability(&model, |_: &[u8]| None);

    assert!(!result.passed);
    assert_eq!(result.violated_keys.len(), 1);
}

#[test]
fn read_your_writes_passes() {
    let result =
        check_read_your_writes(b"key", Some(&b"value".to_vec()), &Some(b"value".to_vec()));
    assert!(result.passed);
}

#[test]
fn read_your_writes_fails() {
    let result =
        check_read_your_writes(b"key", Some(&b"expected".to_vec()), &Some(b"actual".to_vec()));
    assert!(!result.passed);
}

#[test]
fn scan_order_passes() {
    let results = vec![
        (b"a".to_vec(), b"1".to_vec()),
        (b"b".to_vec(), b"2".to_vec()),
        (b"c".to_vec(), b"3".to_vec()),
    ];
    let result = check_scan_order(&results);
    assert!(result.passed);
}

#[test]
fn scan_order_fails() {
    let results = vec![(b"b".to_vec(), b"2".to_vec()), (b"a".to_vec(), b"1".to_vec())];
    let result = check_scan_order(&results);
    assert!(!result.passed);
}

#[test]
fn invariant_report() {
    let mut report = InvariantReport::new();
    report.add(InvariantResult::pass("test1"));
    report.add(InvariantResult::pass("test2"));

    assert!(report.all_passed());
    assert_eq!(report.total_checks, 2);
    assert_eq!(report.passed, 2);
    assert_eq!(report.failed, 0);

    report.add(InvariantResult::fail("test3", "oops"));
    assert!(!report.all_passed());
    assert_eq!(report.failed, 1);
}

#[test]
fn invariant_checker() {
    let mut checker = InvariantChecker::new(InvariantConfig::default());

    checker.record(1, &InvariantResult::pass("test1"));
    checker.record(2, &InvariantResult::fail("test2", "bad"));

    assert!(checker.has_violations());
    assert_eq!(checker.violations().len(), 1);
    assert_eq!(checker.violations()[0].op_num, 2);
}

#[test]
fn full_verification_passes() {
    let mut model = Model::new();
    model.put(b"a", b"1");
    model.put(b"b", b"2");
    model.delete(b"c");

    let report = full_verification(&model, |key: &[u8]| match key {
        b"a" => Some(b"1".to_vec()),
        b"b" => Some(b"2".to_vec()),
        _ => None,
    });

    assert!(report.all_passed());
}

#[test]
fn serialization_checker_no_transactions() {
    let checker = SerializationChecker::new();
    assert!(checker.check_serializability().is_ok());
}

#[test]
fn serialization_checker_single_transaction() {
    let mut checker = SerializationChecker::new();
    checker.record_transaction(committed(1, 1, 2, vec![write("x", "1")]));
    checker.build_dependency_graph();
    assert!(checker.check_serializability().is_ok());
}

#[test]
fn serialization_checker_serializable_schedule() {
    let mut checker = SerializationChecker::new();
    checker.record_transaction(committed(1, 1, 2, vec![write("x", "1")]));
    checker.record_transaction(committed(
        2,
        3,
        4,
        vec![read("x", Some("1")), write("y", "2")],
    ));
    checker.build_dependency_graph();
    assert!(checker.check_serializability().is_ok());
}

#[test]
fn serialization_checker_aborted_transaction_ignored() {
    let mut checker = SerializationChecker::new();
    checker.record_transaction(committed(1, 1, 2, vec![write("x", "1")]));
    checker.record_transaction(CompletedTransaction {
        txn_id: 2,
        begin_ts: 1,
        commit_ts: 0,
        committed: false,
        operations: vec![write("x", "2")],
    });
    checker.build_dependency_graph();
    assert!(checker.check_serializability().is_ok());
    assert_eq!(checker.edge_count(), 0);
}

#[test]
fn serialization_checker_detects_write_skew_cycle() {
    let mut checker = SerializationChecker::new();

    checker.record_transaction(committed(
        1,
        1,
        3,
        vec![read("x", Some("0")), read("y", Some("0")), write("x", "1")],
    ));

    checker.record_transaction(committed(
        2,
        1,
        4,
        vec![read("x", Some("0")), read("y", Some("0")), write("y", "1")],
    ));

    checker.build_dependency_graph();

    assert!(checker.edge_count() >= 2);

    let result = checker.check_serializability();
    assert!(result.is_err(), "Should detect write skew cycle");

    let violation = result.unwrap_err();
    assert!(violation.cycle.len() >= 2, "Cycle should contain at least 2 transactions");
}

#[test]
fn serialization_checker_three_txn_cycle() {
    let mut checker = SerializationChecker::new();

    checker.record_transaction(committed(1, 1, 2, vec![read("z", None), write("x", "1")]));
    checker.record_transaction(committed(2, 1, 3, vec![read("x", None), write("y", "2")]));
    checker.record_transaction(committed(3, 1, 4, vec![read("y", None), write("z", "3")]));

    checker.build_dependency_graph();

    let result = checker.check_serializability();
    assert!(result.is_err(), "Should detect 3-transaction cycle");
}

#[test]
fn edges_say_how_transactions_depend() {
    let mut checker = SerializationChecker::new();
    checker.record_transaction(committed(1, 1, 2, vec![write("x", "1")]));
    checker.record_transaction(committed(2, 3, 4, vec![read("x", Some("1")), write("x", "2")]));
    checker.build_dependency_graph();
    assert_eq!(checker.transaction_count(), 2);
    assert!(checker.edge_count() >= 2);
    assert!(checker.check_serializability().is_ok());
    let r = check_serializability(&checker);
    assert!(r.passed);
    let txn = committed(3, 1, 2, vec![write("a", "1"), read("b", None), write("a", "2")]);
    assert_eq!(
        SerializationChecker::get_write_set(&txn),
        vec![(b"a".to_vec(), Some(b"2".to_vec()))]
    );
    assert_eq!(SerializationChecker::get_read_set(&txn), vec![(b"b".to_vec(), None)]);
    checker.clear();
    assert_eq!(checker.transaction_count(), 0);
    assert_eq!(checker.edge_count(), 0);
}

#[test]
fn a_cycle_is_described_by_its_transactions() {
    let mut checker = SerializationChecker::new();
    checker.record_transaction(committed(
        1,
        1,
        3,
        vec![read("y", Some("0")), write("x", "1")],
    ));
    checker.record_transaction(committed(
        2,
        1,
        4,
        vec![read("x", Some("0")), write("y", "1")],
    ));
    checker.build_dependency_graph();
    let violation = checker.check_serializability().unwrap_err();
    // The cycle goes along edges, back to where it starts.
    assert_eq!(violation.cycle, vec![1, 2, 1]);
    for pair in violation.cycle.windows(2) {
        assert!(violation.edges.iter().any(|e| e.from == pair[0] && e.to == pair[1]));
    }
    assert!(violation.edges.iter().any(|e| e.dep_type == DependencyType::ReadWrite));
    let text = violation.describe();
    assert!(text.starts_with("Non-serializable schedule detected. Cycle: T"));
    let r = check_serializability(&checker);
    assert!(!r.passed);
    assert!(r.details.contains("T1"));
}

#[test]
fn reports_merge_and_count() {
    let mut a = InvariantReport::new();
    a.add(InvariantResult::pass("one"));
    let mut b = InvariantReport::new();
    b.add(InvariantResult::fail_with_keys("two", "bad", vec![b"k".to_vec()]));
    a.merge(b);
    assert_eq!((a.total_checks, a.passed, a.failed), (2, 1, 1));
    assert_eq!(a.failures().len(), 1);
    assert_eq!(a.failures()[0].violated_keys, vec![b"k".to_vec()]);
    assert_eq!(a.summary(), "1/2 invariants failed");
}

#[test]
fn phantoms_and_wrong_scans_are_found() {
    let mut model = Model::new();
    model.put(b"a", b"1");
    model.put(b"b", b"2");
    let keys = vec![b"a".to_vec(), b"ghost".to_vec()];
    let none = check_no_phantom_data(&model, &keys, |k: &[u8]| {
        if k == b"a" {
            Some(b"1".to_vec())
        } else {
            None
        }
    });
    assert!(none.passed);
    let some = check_no_phantom_data(&model, &keys, |_: &[u8]| Some(b"1".to_vec()));
    assert!(!some.passed);
    assert_eq!(some.violated_keys, vec![b"ghost".to_vec()]);

    let right = vec![(b"a".to_vec(), b"1".to_vec()), (b"b".to_vec(), b"2".to_vec())];
    assert!(check_scan_correctness(&model, b"a", b"c", &right).passed);
    let short = vec![(b"a".to_vec(), b"1".to_vec())];
    assert!(!check_scan_correctness(&model, b"a", b"c", &short).passed);
    let wrong = vec![(b"a".to_vec(), b"1".to_vec()), (b"b".to_vec(), b"3".to_vec())];
    assert!(!check_scan_correctness(&model, b"a", b"c", &wrong).passed);
    let twice = vec![(b"a".to_vec(), b"1".to_vec()), (b"a".to_vec(), b"1".to_vec())];
    assert!(!check_scan_order(&twice).passed);
}

#[test]
fn checks_that_are_off_are_not_made() {
    let mut model = Model::new();
    model.put(b"a", b"1");
    let off = InvariantConfig {
        check_durability: false,
        check_read_your_writes: false,
        ..InvariantConfig::default()
    };
    let mut checker = InvariantChecker::new(off);
    assert!(checker.check_durability_if_enabled(1, &model, |_: &[u8]| None).is_none());
    assert!(checker.check_ryw_if_enabled(1, b"a", None, &Some(b"x".to_vec())).is_none());
    assert_eq!(checker.total_checks(), 0);

    let mut checker = InvariantChecker::new(InvariantConfig::default());
    let r = checker.check_durability_if_enabled(4, &model, |_: &[u8]| None).unwrap();
    assert!(!r.passed);
    let r = checker.check_ryw_if_enabled(5, b"a", Some(&b"1".to_vec()), &Some(b"1".to_vec()));
    assert!(r.unwrap().passed);
    assert_eq!(checker.total_checks(), 2);
    assert_eq!(checker.total_failures(), 1);
    assert_eq!(checker.violations()[0].op_num, 4);
    assert!(checker.summary().contains('1'));
    assert!(checker.config().check_durability);
    checker.clear_violations();
    assert!(!checker.has_violations());
}

#[test]
fn samples_and_recoveries_are_checked() {
    let mut model = Model::new();
    for i in 0..20u8 {
        model.put(&[i], &[i, i]);
    }
    let right = |k: &[u8]| if k.len() == 1 && k[0] < 20 { Some(vec![k[0], k[0]]) } else { None };
    let mut rng = Draws::seeded(11);
    assert!(spot_check(&model, 5, right, &mut rng).all_passed());
    assert!(!spot_check(&model, 5, |_: &[u8]| None, &mut rng).all_passed());
    let written = vec![vec![3u8], vec![77u8]];
    assert!(verify_recovery(&model, right, &written).all_passed());
    assert!(!verify_recovery(&model, |_: &[u8]| Some(vec![9u8]), &written).all_passed());
}

#[test]
fn a_cycle_leaves_out_what_leads_to_it() {
    let mut checker = SerializationChecker::new();
    checker.record_transaction(committed(1, 1, 2, vec![write("x", "1")]));
    checker.record_transaction(committed(
        2,
        3,
        10,
        vec![read("x", Some("1")), read("z", None), write("y", "1")],
    ));
    checker.record_transaction(committed(3, 3, 11, vec![read("y", None), write("z", "1")]));
    checker.build_dependency_graph();
    let violation = checker.check_serializability().unwrap_err();
    assert!(violation.edges.iter().any(|e| e.from == 1 && e.to == 2));
    assert!(violation.cycle == vec![2, 3, 2] || violation.cycle == vec![3, 2, 3]);
}

#[test]
fn a_cycle_of_three_passes_each_once() {
    let mut checker = SerializationChecker::new();
    checker.record_transaction(committed(1, 1, 2, vec![read("z", None), write("x", "1")]));
    checker.record_transaction(committed(2, 1, 3, vec![read("x", None), write("y", "1")]));
    checker.record_transaction(committed(3, 1, 4, vec![read("y", None), write("z", "1")]));
    checker.build_dependency_graph();
    let violation = checker.check_serializability().unwrap_err();
    assert_eq!(violation.edges.len(), 3);
    assert!([vec![1, 3, 2, 1], vec![3, 2, 1, 3], vec![2, 1, 3, 2]].contains(&violation.cycle));
}
