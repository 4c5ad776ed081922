//! The Cassandra adapter: the statements it sends and how it reads a row.

use vstd::prelude::*;

verus! {

/// Creates the keyspace, replicated three times, unless it exists.
pub const CREATE_KEYSPACE: &'static str = "CREATE KEYSPACE IF NOT EXISTS consistency_lab WITH replication = {'class': 'SimpleStrategy', 'replication_factor': 3}";

/// Creates the table of text keys and values unless it exists.
pub const CREATE_TABLE: &'static str = "CREATE TABLE IF NOT EXISTS consistency_lab.kv_store (key text PRIMARY KEY, value text)";

/// Writes a value under a key.
pub const INSERT_VALUE: &'static str = "INSERT INTO consistency_lab.kv_store (key, value) VALUES (?, ?)";

/// Reads the value of a key.
pub const SELECT_VALUE: &'static str = "SELECT value FROM consistency_lab.kv_store WHERE key = ?";

/// What a read query found: the text of the first row's first column, if
/// the query returned rows, there is a first row, and that column holds
/// text. Each row is given by the text of its first column.
pub fn first_row_value(rows: Option<Vec<Option<String>>>) -> (r: Option<String>)
    ensures
        r == (match rows {
            Some(rs) => if rs@.len() > 0 {
                rs@[0]
            } else {
                None
            },
            None => None,
        }),
{
    match rows {
        Some(mut rs) => {
            if rs.len() > 0 {
                rs.swap_remove(0)
            } else {
                None
            }
        },
        None => None,
    }
}

} // verus!
