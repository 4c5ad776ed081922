//! The records that workloads draw their keys and values from.

use vstd::prelude::*;

verus! {

/// One article: its title is the key, its text the value.
#[derive(Clone, Debug)]
pub struct WikiRecord {
    pub key: String,
    pub value: String,
}

/// All records, held in memory.
#[derive(Clone, Debug)]
pub struct Dataset {
    pub records: Vec<WikiRecord>,
}

impl Dataset {
    /// The record that operation `i` uses: the dataset is cycled through,
    /// starting again at the first record after the last.
    pub open spec fn record_at(&self, i: u64) -> WikiRecord {
        self.records@[(i as int) % (self.records@.len() as int)]
    }

    /// The record that operation `i` uses, cycling through the dataset.
    pub fn get(&self, i: u64) -> (r: &WikiRecord)
        requires
            self.records@.len() > 0,
        ensures
            *r == self.record_at(i),
    {
        let n = self.records.len();
        let idx = (i % (n as u64)) as usize;
        &self.records[idx]
    }
}

/// The first pass through the dataset uses each record in order:
/// operation `i`, for `i` below the number of records, uses record `i`.
pub proof fn law_first_pass(d: Dataset, i: u64)
    requires
        i < d.records@.len(),
    ensures
        d.record_at(i) == d.records@[i as int],
{
    vstd::arithmetic::div_mod::lemma_small_mod(i as nat, d.records@.len());
}

/// Operations one full dataset apart use the same record.
pub proof fn law_records_cycle(d: Dataset, i: u64)
    requires
        d.records@.len() > 0,
        i + d.records@.len() <= u64::MAX,
    ensures
        d.record_at(i) == d.record_at((i + d.records@.len()) as u64),
{
    let n = d.records@.len() as int;
    vstd::arithmetic::div_mod::lemma_mod_add_multiples_vanish(i as int, n);
}

} // verus!
