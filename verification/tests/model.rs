use crackeddb::model::{compare_model, compare_values, Model, OpKind};

#[test]
fn model_put_get() {
    let mut model = Model::new();

    model.put(b"key1", b"value1");
    model.put(b"key2", b"value2");

    assert_eq!(model.get_value(b"key1"), Some(&b"value1".to_vec()));
    assert_eq!(model.get_value(b"key2"), Some(&b"value2".to_vec()));
    assert_eq!(model.get_value(b"key3"), None);
}

#[test]
fn model_delete() {
    let mut model = Model::new();

    model.put(b"key", b"value");
    assert_eq!(model.get_value(b"key"), Some(&b"value".to_vec()));

    model.delete(b"key");
    assert_eq!(model.get_value(b"key"), None);

    // A deleted key is told from one that was never written.
    assert_eq!(model.get(b"key"), Some(None));
    assert_eq!(model.get(b"nonexistent"), None);
}

#[test]
fn model_overwrite() {
    let mut model = Model::new();

    model.put(b"key", b"v1");
    model.put(b"key", b"v2");
    model.put(b"key", b"v3");

    assert_eq!(model.get_value(b"key"), Some(&b"v3".to_vec()));
    assert_eq!(model.op_count(), 3);
}

#[test]
fn model_snapshot_restore() {
    let mut model = Model::new();

    model.put(b"key1", b"value1");
    model.put(b"key2", b"value2");

    let snapshot = model.snapshot();

    model.put(b"key3", b"value3");
    model.delete(b"key1");

    assert_eq!(model.get_value(b"key1"), None);
    assert_eq!(model.get_value(b"key3"), Some(&b"value3".to_vec()));

    model.restore(&snapshot);

    assert_eq!(model.get_value(b"key1"), Some(&b"value1".to_vec()));
    assert_eq!(model.get_value(b"key3"), None);
}

#[test]
fn comparison_matching() {
    let mut model = Model::new();
    model.put(b"key1", b"value1");
    model.put(b"key2", b"value2");

    let result = compare_model(&model, |key: &[u8]| match key {
        b"key1" => Some(b"value1".to_vec()),
        b"key2" => Some(b"value2".to_vec()),
        _ => None,
    });

    assert!(result.is_ok());
    assert_eq!(result.matching, 2);
}

#[test]
fn comparison_mismatch() {
    let mut model = Model::new();
    model.put(b"key1", b"value1");

    let result = compare_model(&model, |key: &[u8]| match key {
        b"key1" => Some(b"wrong_value".to_vec()),
        _ => None,
    });

    assert!(!result.is_ok());
    assert_eq!(result.mismatches.len(), 1);
}

#[test]
fn the_model_keeps_its_keys_in_order() {
    let mut model = Model::new();
    for k in ["m", "c", "z", "a"] {
        model.put(k.as_bytes(), b"1");
    }
    model.delete(b"c");
    let b = |s: &str| s.as_bytes().to_vec();
    assert_eq!(model.all_keys(), vec![b("a"), b("c"), b("m"), b("z")]);
    assert_eq!(model.live_keys(), vec![b("a"), b("m"), b("z")]);
    assert_eq!(model.live_count(), 3);
    assert_eq!(model.iter().len(), 4);
    assert_eq!(model.scan(b"b", b"z"), vec![(b("m"), b("1"))]);
    let snapshot = model.snapshot();
    assert_eq!(snapshot.get(b"m"), Some(&b("1")));
    assert_eq!(snapshot.iter_live().len(), 3);
    assert_eq!(model.history().len(), 5);
    assert_eq!(model.history()[4].kind, OpKind::Delete);
    assert_eq!(model.history()[4].seq, 4);
    model.clear();
    assert_eq!(model.op_count(), 5);
    assert_eq!(model.history().len(), 5);
    assert!(model.all_keys().is_empty());
}

#[test]
fn comparisons_sort_out_what_is_wrong() {
    let mut model = Model::new();
    model.put(b"a", b"1");
    model.put(b"b", b"2");
    model.put(b"c", b"3");
    model.delete(b"d");
    let actual = vec![
        Some(b"1".to_vec()),
        Some(b"x".to_vec()),
        None,
        Some(b"back".to_vec()),
    ];
    let r = compare_values(&model, &actual);
    assert_eq!(r.matching, 1);
    assert_eq!(r.mismatches[0].key, b"b".to_vec());
    assert_eq!(r.mismatches[0].actual, Some(b"x".to_vec()));
    assert_eq!(r.missing_from_actual, vec![b"c".to_vec()]);
    assert_eq!(r.unexpected_in_actual, vec![b"d".to_vec()]);
    assert!(!r.is_ok());
    assert!(!r.summary().is_empty());
}
