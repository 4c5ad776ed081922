use kv_gauntlet::runner::{
    get_record, plan_operation, put_record, version_of, versioned_value, PlannedOp,
    VersionTracker,
};
use kv_gauntlet::workload::Operation;

#[test]
fn versioned_value_pads_to_eight_digits() {
    assert_eq!(versioned_value(1, "text"), "00000001|text");
    assert_eq!(versioned_value(42, ""), "00000042|");
    assert_eq!(versioned_value(123456789, "a|b"), "123456789|a|b");
    assert_eq!(versioned_value(0, "x"), "00000000|x");
    assert_eq!(versioned_value(u64::MAX, "v"), "18446744073709551615|v");
}

#[test]
fn version_of_reads_prefix() {
    assert_eq!(version_of("00000042|hello"), Some(42));
    assert_eq!(version_of("7"), Some(7));
    assert_eq!(version_of("+7|x"), Some(7));
    assert_eq!(version_of("|x"), None);
    assert_eq!(version_of("abc|x"), None);
    assert_eq!(version_of("-1|x"), None);
    assert_eq!(version_of("18446744073709551616|x"), None);
    assert_eq!(version_of("18446744073709551615|x"), Some(u64::MAX));
    assert_eq!(version_of(""), None);
}

#[test]
fn version_round_trips() {
    for v in [0u64, 1, 9, 10, 99999999, 100000000, u64::MAX] {
        assert_eq!(version_of(&versioned_value(v, "some|value")), Some(v));
    }
}

#[test]
fn tracker_counts_per_key() {
    let mut t = VersionTracker::new();
    assert_eq!(t.current_version("a"), 0);
    assert_eq!(t.next_version("a"), 1);
    assert_eq!(t.next_version("b"), 1);
    assert_eq!(t.next_version("a"), 2);
    assert_eq!(t.current_version("a"), 2);
    assert_eq!(t.current_version("b"), 1);
    assert_eq!(t.current_version("c"), 0);
}

#[test]
fn planning_versions_writes() {
    let mut t = VersionTracker::new();
    let p = plan_operation(
        &mut t,
        Operation::Put { key: "k".to_string(), value: "v".to_string() },
    );
    assert_eq!(
        p,
        PlannedOp::Put { key: "k".to_string(), value: "00000001|v".to_string(), version: 1 }
    );
    let p = plan_operation(
        &mut t,
        Operation::Put { key: "k".to_string(), value: "w".to_string() },
    );
    assert_eq!(
        p,
        PlannedOp::Put { key: "k".to_string(), value: "00000002|w".to_string(), version: 2 }
    );
    let p = plan_operation(&mut t, Operation::Get { key: "k".to_string() });
    assert_eq!(p, PlannedOp::Get { key: "k".to_string() });
    assert_eq!(t.current_version("k"), 2);
}

#[test]
fn records_of_operations() {
    let r = put_record("k".to_string(), 3, true);
    assert_eq!(r.operation, "PUT");
    assert_eq!(r.version, Some(3));
    assert!(r.success);
    let r = get_record("k".to_string(), &Ok(Some("00000003|v".to_string())));
    assert_eq!(r.operation, "GET");
    assert_eq!(r.version, Some(3));
    assert!(r.success);
    let r = get_record("k".to_string(), &Ok(None));
    assert_eq!(r.version, None);
    assert!(r.success);
    let r = get_record("k".to_string(), &Err("down".to_string()));
    assert_eq!(r.version, None);
    assert!(!r.success);
    let r = get_record("k".to_string(), &Ok(Some("no version".to_string())));
    assert_eq!(r.version, None);
}
