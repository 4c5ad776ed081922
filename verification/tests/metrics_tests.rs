use kv_gauntlet::metrics::{csv_header, csv_row, results_path};
use kv_gauntlet::runner::OpRecord;

#[test]
fn results_path_layout() {
    assert_eq!(
        results_path("cassandra", "balanced", "20240101_120000"),
        "results/cassandra_balanced_20240101_120000.csv"
    );
}

#[test]
fn header_lists_columns() {
    assert_eq!(
        csv_header(),
        "timestamp,elapsed_seconds,system,workload,operation,key,latency_ms,success"
    );
}

#[test]
fn row_layout() {
    let r = OpRecord {
        operation: "PUT".to_string(),
        key: "Turing, Alan".to_string(),
        success: true,
        version: Some(12),
    };
    assert_eq!(
        csv_row("2024-01-01T00:00:00+00:00", "1.500", "etcd", "balanced", &r, "2.250"),
        "2024-01-01T00:00:00+00:00,1.500,etcd,balanced,PUT,\"Turing, Alan\",2.250,true"
    );
    let r = OpRecord {
        operation: "GET".to_string(),
        key: "k".to_string(),
        success: false,
        version: None,
    };
    assert_eq!(
        csv_row("t", "0.000", "antidote", "contention", &r, "10.000"),
        "t,0.000,antidote,contention,GET,\"k\",10.000,false"
    );
}

#[test]
fn row_has_one_field_per_column() {
    let r = OpRecord { operation: "GET".to_string(), key: "a,b".to_string(), success: true, version: None };
    let row = csv_row("t", "0.001", "etcd", "write-heavy", &r, "0.500");
    let header = csv_header();
    assert_eq!(header.split(',').count(), 8);
    // the quoted key holds one comma, so a naive split finds one field more
    assert_eq!(row.split(',').count(), 9);
    assert!(row.contains("\"a,b\""));
}
