# kv_gauntlet

An experiment harness for replication and consistency trade-offs in
key-value stores (etcd, Cassandra, AntidoteDB). It sends a workload of reads
and writes for a set time, injects a fault partway, and records every
operation to a CSV file.

`src/` is the verified library, checked by Verus:

- `workload`, `dataset`: which operation the i-th request is and which
  record it uses; every hundred requests hold exactly the workload's share
  of writes.
- `runner`: versions carried in front of written values, the version a read
  saw, and the record kept of each operation; a read gives back the version
  that was written.
- `metrics`: the CSV header (timestamp, elapsed_seconds, system, workload,
  operation, key, latency_ms, success), file path and row layout; a CSV
  reader finds in each row one field per header column.
- `systems`: the AntidoteDB expressions and the parsing of their output
  (values are stored behind a `#`, so a key written with the empty text
  reads back as that text, not as missing), the
  Cassandra statements, and how rows and values are read back.
- `base64`, `text`: base64 decoding (proved to invert standard encoding),
  line splitting, trimming, decimal formatting and parsing.

`app/` is the program around it: configuration and dataset files, the
database clients, the timed loop, fault injection and the metrics file.
