//! Generation of the operations a workload sends: which ones read, which
//! ones write, and to which keys.

use vstd::prelude::*;
use crate::dataset::{Dataset, WikiRecord};
use crate::text::{chars_equal, str_chars};

verus! {

/// One request to a store.
#[derive(Debug, Clone, PartialEq, Eq)]
pub enum Operation {
    Put { key: String, value: String },
    Get { key: String },
}

/// The mixes of reads and writes an experiment can run.
#[derive(Debug, Clone, Copy, PartialEq, Eq, Structural)]
pub enum WorkloadType {
    /// 50% reads, 50% writes.
    Balanced,
    /// 95% reads, 5% writes.
    ReadHeavy,
    /// 5% reads, 95% writes.
    WriteHeavy,
    /// 5% reads, 95% writes, all writes to the same key.
    Contention,
}

/// The workload a configuration name stands for.
pub open spec fn workload_named(name: Seq<char>) -> Option<WorkloadType> {
    if name == "balanced"@ {
        Some(WorkloadType::Balanced)
    } else if name == "read-heavy"@ {
        Some(WorkloadType::ReadHeavy)
    } else if name == "write-heavy"@ {
        Some(WorkloadType::WriteHeavy)
    } else if name == "contention"@ {
        Some(WorkloadType::Contention)
    } else {
        None
    }
}

/// The key that every write of the contention workload goes to.
pub open spec fn contention_key() -> Seq<char> {
    "contention_key"@
}

impl WorkloadType {
    /// The workload a configuration name stands for: `balanced`,
    /// `read-heavy`, `write-heavy` or `contention`.
    pub fn from_str(s: &str) -> (r: Option<Self>)
        ensures
            r == workload_named(s@),
    {
        let name = str_chars(s);
        if chars_equal(name.as_slice(), str_chars("balanced").as_slice()) {
            Some(WorkloadType::Balanced)
        } else if chars_equal(name.as_slice(), str_chars("read-heavy").as_slice()) {
            Some(WorkloadType::ReadHeavy)
        } else if chars_equal(name.as_slice(), str_chars("write-heavy").as_slice()) {
            Some(WorkloadType::WriteHeavy)
        } else if chars_equal(name.as_slice(), str_chars("contention").as_slice()) {
            Some(WorkloadType::Contention)
        } else {
            None
        }
    }

    /// Out of every hundred consecutive operations, how many write.
    pub open spec fn write_percent(self) -> int {
        match self {
            WorkloadType::Balanced => 50,
            WorkloadType::ReadHeavy => 5,
            WorkloadType::WriteHeavy => 95,
            WorkloadType::Contention => 95,
        }
    }
}

/// Whether operation `i` of a workload writes: the first `write_percent`
/// of every hundred do.
pub open spec fn is_write(kind: WorkloadType, i: int) -> bool {
    i % 100 < kind.write_percent()
}

/// The operation a workload sends as its `i`-th: a write of the record's
/// value (to the contention key under contention, else to the record's
/// key), or a read of the record's key.
pub open spec fn operation_for(kind: WorkloadType, record: WikiRecord, i: u64, op: Operation) -> bool {
    match op {
        Operation::Put { key, value } => {
            &&& is_write(kind, i as int)
            &&& key@ == (if kind == WorkloadType::Contention {
                contention_key()
            } else {
                record.key@
            })
            &&& value@ == record.value@
        },
        Operation::Get { key } => !is_write(kind, i as int) && key@ == record.key@,
    }
}

/// The `i`-th operation of a workload, on the record that `i` cycles to.
pub fn next_operation(kind: &WorkloadType, dataset: &Dataset, i: u64) -> (op: Operation)
    requires
        dataset.records@.len() > 0,
    ensures
        operation_for(*kind, dataset.record_at(i), i, op),
{
    let record = dataset.get(i);
    let write_percent: u64 = match kind {
        WorkloadType::Balanced => 50,
        WorkloadType::ReadHeavy => 5,
        WorkloadType::WriteHeavy => 95,
        WorkloadType::Contention => 95,
    };
    if i % 100 < write_percent {
        let key = match kind {
            WorkloadType::Contention => "contention_key".to_owned(),
            _ => record.key.clone(),
        };
        Operation::Put { key, value: record.value.clone() }
    } else {
        Operation::Get { key: record.key.clone() }
    }
}

/// What an operation is, for every workload: it writes exactly when its
/// index modulo 100 is below 50 (balanced), 5 (read-heavy) or 95
/// (write-heavy, contention); a write carries the record's value, to the
/// record's key under every workload but contention and to
/// `contention_key` under contention; a read reads the record's key.
pub proof fn law_operation_targets(kind: WorkloadType, record: WikiRecord, i: u64, op: Operation)
    requires
        operation_for(kind, record, i, op),
    ensures
        (op is Put) <==> (i % 100) < (match kind {
            WorkloadType::Balanced => 50int,
            WorkloadType::ReadHeavy => 5int,
            WorkloadType::WriteHeavy => 95int,
            WorkloadType::Contention => 95int,
        }),
        op matches Operation::Put { key, value } ==> value@ == record.value@ && (kind
            != WorkloadType::Contention ==> key@ == record.key@) && (kind
            == WorkloadType::Contention ==> key@ == "contention_key"@),
        op matches Operation::Get { key } ==> key@ == record.key@,
{
}

/// How many of the `n` operations from index `start` on write.
pub open spec fn writes_among(kind: WorkloadType, start: int, n: nat) -> nat
    decreases n,
{
    if n == 0 {
        0
    } else {
        writes_among(kind, start, (n - 1) as nat) + if is_write(kind, start + n - 1) {
            1nat
        } else {
            0nat
        }
    }
}

proof fn lemma_writes_prefix(kind: WorkloadType, block: int, n: nat)
    requires
        n <= 100,
    ensures
        writes_among(kind, 100 * block, n) == if n < kind.write_percent() {
            n as int
        } else {
            kind.write_percent()
        },
    decreases n,
{
    if n > 0 {
        lemma_writes_prefix(kind, block, (n - 1) as nat);
        vstd::arithmetic::div_mod::lemma_mod_multiples_vanish(block, n - 1, 100);
        assert((100 * block + (n - 1)) % 100 == n - 1);
    }
}

proof fn lemma_writes_front(kind: WorkloadType, start: int, n: nat)
    ensures
        writes_among(kind, start, n + 1) == (if is_write(kind, start) {
            1int
        } else {
            0int
        }) + writes_among(kind, start + 1, n),
    decreases n,
{
    let w = |i: int| if is_write(kind, i) { 1int } else { 0int };
    assert(writes_among(kind, start, n + 1) == writes_among(kind, start, n) + w(start + n));
    if n > 0 {
        lemma_writes_front(kind, start, (n - 1) as nat);
        assert(((n - 1) as nat) + 1 == n);
        assert(writes_among(kind, start + 1, n) == writes_among(kind, start + 1, (n - 1) as nat)
            + w(start + 1 + n - 1));
    } else {
        assert(writes_among(kind, start, 0) == 0);
    }
}

/// Any hundred consecutive operations hold exactly the workload's write
/// percentage of writes; the rest are reads.
pub proof fn law_write_share(kind: WorkloadType, start: nat)
    ensures
        writes_among(kind, start as int, 100) == kind.write_percent(),
    decreases start,
{
    if start == 0 {
        lemma_writes_prefix(kind, 0, 100);
    } else {
        let t = (start - 1) as nat;
        law_write_share(kind, t);
        lemma_writes_front(kind, t as int, 100);
        vstd::arithmetic::div_mod::lemma_mod_add_multiples_vanish(t as int, 100);
        assert(is_write(kind, t as int + 100) == is_write(kind, t as int));
    }
}

} // verus!
