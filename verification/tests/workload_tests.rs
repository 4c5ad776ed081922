use kv_gauntlet::dataset::{Dataset, WikiRecord};
use kv_gauntlet::workload::{next_operation, Operation, WorkloadType};

fn record(key: &str, value: &str) -> WikiRecord {
    WikiRecord { key: key.to_string(), value: value.to_string() }
}

fn sample() -> Dataset {
    Dataset {
        records: vec![record("Alpha", "first"), record("Beta", "second"), record("Gamma", "third")],
    }
}

#[test]
fn from_str_names_each_workload() {
    assert_eq!(WorkloadType::from_str("balanced"), Some(WorkloadType::Balanced));
    assert_eq!(WorkloadType::from_str("read-heavy"), Some(WorkloadType::ReadHeavy));
    assert_eq!(WorkloadType::from_str("write-heavy"), Some(WorkloadType::WriteHeavy));
    assert_eq!(WorkloadType::from_str("contention"), Some(WorkloadType::Contention));
}

#[test]
fn from_str_refuses_other_names() {
    assert_eq!(WorkloadType::from_str("Balanced"), None);
    assert_eq!(WorkloadType::from_str(""), None);
    assert_eq!(WorkloadType::from_str("read_heavy"), None);
    assert_eq!(WorkloadType::from_str(" balanced"), None);
}

#[test]
fn dataset_get_cycles() {
    let d = sample();
    assert_eq!(d.get(0).key, "Alpha");
    assert_eq!(d.get(2).key, "Gamma");
    assert_eq!(d.get(3).key, "Alpha");
    assert_eq!(d.get(4).value, "second");
    assert_eq!(d.get(u64::MAX).key, d.get(u64::MAX % 3).key);
}

#[test]
fn balanced_writes_first_half_of_each_hundred() {
    let d = sample();
    let k = WorkloadType::Balanced;
    assert_eq!(
        next_operation(&k, &d, 0),
        Operation::Put { key: "Alpha".to_string(), value: "first".to_string() }
    );
    assert_eq!(
        next_operation(&k, &d, 49),
        Operation::Put { key: "Beta".to_string(), value: "second".to_string() }
    );
    assert_eq!(next_operation(&k, &d, 50), Operation::Get { key: "Gamma".to_string() });
    assert_eq!(next_operation(&k, &d, 99), Operation::Get { key: "Alpha".to_string() });
    assert_eq!(
        next_operation(&k, &d, 100),
        Operation::Put { key: "Beta".to_string(), value: "second".to_string() }
    );
}

#[test]
fn read_heavy_writes_five_percent() {
    let d = sample();
    let k = WorkloadType::ReadHeavy;
    assert!(matches!(next_operation(&k, &d, 4), Operation::Put { .. }));
    assert_eq!(next_operation(&k, &d, 5), Operation::Get { key: "Gamma".to_string() });
    assert!(matches!(next_operation(&k, &d, 204), Operation::Put { .. }));
}

#[test]
fn write_heavy_reads_last_five() {
    let d = sample();
    let k = WorkloadType::WriteHeavy;
    assert!(matches!(next_operation(&k, &d, 94), Operation::Put { .. }));
    assert_eq!(next_operation(&k, &d, 95), Operation::Get { key: "Gamma".to_string() });
}

#[test]
fn contention_writes_one_key() {
    let d = sample();
    let k = WorkloadType::Contention;
    assert_eq!(
        next_operation(&k, &d, 1),
        Operation::Put { key: "contention_key".to_string(), value: "second".to_string() }
    );
    assert_eq!(
        next_operation(&k, &d, 2),
        Operation::Put { key: "contention_key".to_string(), value: "third".to_string() }
    );
    assert_eq!(next_operation(&k, &d, 97), Operation::Get { key: "Beta".to_string() });
}

#[test]
fn write_share_per_hundred() {
    let d = sample();
    for (k, expected) in [
        (WorkloadType::Balanced, 50),
        (WorkloadType::ReadHeavy, 5),
        (WorkloadType::WriteHeavy, 95),
        (WorkloadType::Contention, 95),
    ] {
        let writes = (300..400u64)
            .filter(|i| matches!(next_operation(&k, &d, *i), Operation::Put { .. }))
            .count();
        assert_eq!(writes, expected);
    }
}
