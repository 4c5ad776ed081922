//! What the store adapters decide: the text they send and how they read
//! what comes back.

pub mod antidote;
pub mod cassandra;
pub mod etcd;
