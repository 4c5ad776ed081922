//! The decisions of an experiment run: which versions values carry when
//! they are written, which version a read saw, and what is recorded.

use vstd::prelude::*;
use crate::workload::Operation;
use crate::text::{
    all_digits, before_char, chars_before, decimal, digits_value, is_digit, lemma_before_char_split,
    lemma_decimal_digits, lemma_decimal_leading, lemma_decimal_long, lemma_decimal_short,
    lemma_zeros_value, ten_pow, parse_u64, parse_u64_chars, push_zero_padded,
    str_chars, string_from_chars, zero_padded, chars_equal,
};

verus! {

/// The width, in digits, of the version written in front of each value.
pub const VERSION_WIDTH: usize = 8;

/// A value as it is written: its version, zero-padded to eight digits, a
/// `|`, then the value itself.
pub open spec fn versioned(version: u64, value: Seq<char>) -> Seq<char> {
    zero_padded(decimal(version as nat), 8) + seq!['|'] + value
}

/// The version that a stored value carries: the text before its first `|`,
/// read as a `u64`.
pub open spec fn version_in(stored: Seq<char>) -> Option<u64> {
    parse_u64(before_char(stored, '|'))
}

/// The value to write for `value` under `version`.
pub fn versioned_value(version: u64, value: &str) -> (r: String)
    ensures
        r@ == versioned(version, value@),
{
    let mut out: Vec<char> = Vec::new();
    push_zero_padded(&mut out, version, VERSION_WIDTH);
    out.push('|');
    let mut rest = str_chars(value);
    out.append(&mut rest);
    string_from_chars(out.as_slice())
}

/// The version that a stored value carries, if its text before the first
/// `|` reads as a `u64`.
pub fn version_of(stored: &str) -> (r: Option<u64>)
    ensures
        r == version_in(stored@),
{
    let chars = str_chars(stored);
    let head = chars_before(chars.as_slice(), '|');
    parse_u64_chars(head.as_slice())
}

/// How many times a key has been written.
struct Entry {
    key: Vec<char>,
    count: u64,
}

/// The write count of each key, the latest entry for a key winning.
spec fn entries_map(es: Seq<Entry>) -> Map<Seq<char>, u64>
    decreases es.len(),
{
    if es.len() == 0 {
        Map::empty()
    } else {
        entries_map(es.drop_last()).insert(es.last().key@, es.last().count)
    }
}

/// No key stands in two entries.
spec fn distinct_keys(es: Seq<Entry>) -> bool {
    forall|i: int, j: int| 0 <= i < j < es.len() ==> es[i].key@ != es[j].key@
}

proof fn lemma_entries_contains(es: Seq<Entry>, k: Seq<char>)
    ensures
        entries_map(es).contains_key(k) <==> exists|i: int| 0 <= i < es.len() && es[i].key@ == k,
    decreases es.len(),
{
    if es.len() > 0 {
        lemma_entries_contains(es.drop_last(), k);
        if entries_map(es.drop_last()).contains_key(k) {
            let i = choose|i: int| 0 <= i < es.len() - 1 && es.drop_last()[i].key@ == k;
            assert(es[i].key@ == k);
        }
        if exists|i: int| 0 <= i < es.len() && es[i].key@ == k {
            let i = choose|i: int| 0 <= i < es.len() && es[i].key@ == k;
            if i < es.len() - 1 {
                assert(es.drop_last()[i].key@ == k);
            }
        }
    }
}

proof fn lemma_entries_value(es: Seq<Entry>, i: int)
    requires
        distinct_keys(es),
        0 <= i < es.len(),
    ensures
        entries_map(es).contains_key(es[i].key@),
        entries_map(es)[es[i].key@] == es[i].count,
    decreases es.len(),
{
    if i < es.len() - 1 {
        let d = es.drop_last();
        assert(d[i] == es[i]);
        assert(distinct_keys(d));
        lemma_entries_value(d, i);
    }
}

proof fn lemma_entries_update(es: Seq<Entry>, i: int, e: Entry)
    requires
        distinct_keys(es),
        0 <= i < es.len(),
        e.key@ == es[i].key@,
    ensures
        entries_map(es.update(i, e)) == entries_map(es).insert(es[i].key@, e.count),
    decreases es.len(),
{
    let u = es.update(i, e);
    if i == es.len() - 1 {
        assert(u.drop_last() =~= es.drop_last());
        assert(entries_map(u) =~= entries_map(es).insert(es[i].key@, e.count));
    } else {
        let d = es.drop_last();
        assert(distinct_keys(d));
        assert(u.drop_last() =~= d.update(i, e));
        lemma_entries_update(d, i, e);
        assert(es.last().key@ != es[i].key@);
        assert(entries_map(u) =~= entries_map(es).insert(es[i].key@, e.count));
    }
}

/// The version reached by a key: its write count, zero when never written.
pub open spec fn current(versions: Map<Seq<char>, u64>, key: Seq<char>) -> u64 {
    if versions.contains_key(key) {
        versions[key]
    } else {
        0
    }
}

/// The number of writes planned so far for each key.
pub struct VersionTracker {
    entries: Vec<Entry>,
}

impl VersionTracker {
    #[verifier::type_invariant]
    spec fn keys_distinct(self) -> bool {
        distinct_keys(self.entries@)
    }

    /// The write count of each key that has been written.
    pub closed spec fn versions(self) -> Map<Seq<char>, u64> {
        entries_map(self.entries@)
    }

    /// A tracker in which no key has been written.
    pub fn new() -> (r: Self)
        ensures
            r@ == Map::<Seq<char>, u64>::empty(),
    {
        VersionTracker { entries: Vec::new() }
    }

    fn find(&self, key: &[char]) -> (r: Option<usize>)
        ensures
            match r {
                Some(i) => i < self.entries@.len() && self.entries@[i as int].key@ == key@,
                None => forall|i: int|
                    0 <= i < self.entries@.len() ==> self.entries@[i].key@ != key@,
            },
    {
        let mut i: usize = 0;
        while i < self.entries.len()
            invariant
                i <= self.entries@.len(),
                forall|j: int| 0 <= j < i ==> self.entries@[j].key@ != key@,
            decreases self.entries@.len() - i,
        {
            if chars_equal(self.entries[i].key.as_slice(), key) {
                return Some(i);
            }
            i = i + 1;
        }
        None
    }

    /// The version `key` has reached: how many writes of it were planned.
    pub fn current_version(&self, key: &str) -> (r: u64)
        ensures
            r == current(self@, key@),
    {
        proof {
            use_type_invariant(self);
        }
        let k = str_chars(key);
        match self.find(k.as_slice()) {
            Some(i) => {
                proof {
                    lemma_entries_value(self.entries@, i as int);
                }
                self.entries[i].count
            },
            None => {
                proof {
                    lemma_entries_contains(self.entries@, key@);
                }
                0
            },
        }
    }

    /// Counts one more write of `key` and returns its new version: one
    /// more than the version it had reached. No other key changes.
    pub fn next_version(&mut self, key: &str) -> (r: u64)
        requires
            current(old(self)@, key@) < u64::MAX,
        ensures
            r == current(old(self)@, key@) + 1,
            final(self)@ == old(self)@.insert(key@, r),
    {
        proof {
            use_type_invariant(&*self);
        }
        let k = str_chars(key);
        match self.find(k.as_slice()) {
            Some(i) => {
                proof {
                    lemma_entries_value(self.entries@, i as int);
                }
                let c = self.entries[i].count + 1;
                let ghost before = self.entries@;
                let e = Entry { key: k, count: c };
                proof {
                    lemma_entries_update(before, i as int, e);
                }
                let mut es: Vec<Entry> = Vec::new();
                std::mem::swap(&mut es, &mut self.entries);
                es.set(i, e);
                assert(es@ == before.update(i as int, e));
                self.entries = es;
                c
            },
            None => {
                proof {
                    lemma_entries_contains(self.entries@, key@);
                }
                let ghost before = self.entries@;
                let mut es: Vec<Entry> = Vec::new();
                std::mem::swap(&mut es, &mut self.entries);
                es.push(Entry { key: k, count: 1 });
                assert(es@.drop_last() =~= before);
                self.entries = es;
                1
            },
        }
    }
}

impl View for VersionTracker {
    type V = Map<Seq<char>, u64>;

    open spec fn view(&self) -> Map<Seq<char>, u64> {
        self.versions()
    }
}

/// The version stands in front of the value as exactly eight digits when
/// it has at most eight, zeros filling the front, and as its plain decimal
/// digits, without a leading zero, when it has more; a `|` follows, then the
/// value unchanged.
pub proof fn law_version_text_width(version: u64, value: Seq<char>)
    ensures
        ({
            let t = versioned(version, value);
            let p = before_char(t, '|');
            &&& t == p + seq!['|'] + value
            &&& all_digits(p)
            &&& digits_value(p) == version
            &&& version < 100000000 ==> p.len() == 8 && t.len() == 9 + value.len() && t[8] == '|'
            &&& version >= 100000000 ==> p.len() > 8 && p[0] != '0'
        }),
{
    let digits = decimal(version as nat);
    lemma_decimal_digits(version as nat);
    let padded = zero_padded(digits, 8);
    if digits.len() < 8 {
        lemma_zeros_value((8 - digits.len()) as nat, digits);
    }
    assert forall|i: int| 0 <= i < padded.len() implies padded[i] != '|' by {
        assert(is_digit(padded[i]));
    }
    lemma_before_char_split(padded, '|', value);
    let t = versioned(version, value);
    assert(t =~= padded + seq!['|'] + value);
    reveal_with_fuel(ten_pow, 9);
    if version < 100000000 {
        lemma_decimal_short(version as nat, 8);
        assert(padded.len() == 8);
        assert(t[8] == '|');
    } else {
        lemma_decimal_long(version as nat, 8);
        lemma_decimal_leading(version as nat);
    }
}

/// A read gives back the version that the write wrote: whatever the value,
/// the version in front of it reads back unchanged.
pub proof fn law_version_round_trip(version: u64, value: Seq<char>)
    ensures
        version_in(versioned(version, value)) == Some(version),
{
    let digits = decimal(version as nat);
    lemma_decimal_digits(version as nat);
    let padded = zero_padded(digits, 8);
    if digits.len() < 8 {
        lemma_zeros_value((8 - digits.len()) as nat, digits);
    }
    assert(all_digits(padded));
    assert forall|i: int| 0 <= i < padded.len() implies padded[i] != '|' by {
        assert(is_digit(padded[i]));
    }
    lemma_before_char_split(padded, '|', value);
    assert(padded[0] != '+') by {
        assert(is_digit(padded[0]));
    }
}

/// An operation ready to send: a write carries its version in front of
/// its value.
#[derive(Debug, Clone, PartialEq, Eq)]
pub enum PlannedOp {
    Put { key: String, value: String, version: u64 },
    Get { key: String },
}

/// Prepares an operation: a write takes the next version of its key and
/// carries it in front of its value; a read goes out as it is.
pub fn plan_operation(versions: &mut VersionTracker, op: Operation) -> (p: PlannedOp)
    requires
        op matches Operation::Put { key, .. } ==> current(old(versions)@, key@) < u64::MAX,
    ensures
        match op {
            Operation::Put { key, value } => {
                let version = (current(old(versions)@, key@) + 1) as u64;
                &&& final(versions)@ == old(versions)@.insert(key@, version)
                &&& p matches PlannedOp::Put { key: k, value: v, version: n }
                &&& k@ == key@
                &&& n == version
                &&& v@ == versioned(version, value@)
            },
            Operation::Get { key } => {
                &&& final(versions)@ == old(versions)@
                &&& p matches PlannedOp::Get { key: k }
                &&& k@ == key@
            },
        },
{
    match op {
        Operation::Put { key, value } => {
            let version = versions.next_version(key.as_str());
            let versioned_text = versioned_value(version, value.as_str());
            PlannedOp::Put { key, value: versioned_text, version }
        },
        Operation::Get { key } => PlannedOp::Get { key },
    }
}

/// The write counts after planning `ops` in order with a new tracker, as
/// `plan_operation` states each step: a write raises its key by one, a read
/// changes nothing.
pub open spec fn counts_after(ops: Seq<Operation>) -> Map<Seq<char>, u64>
    decreases ops.len(),
{
    if ops.len() == 0 {
        Map::empty()
    } else {
        let m = counts_after(ops.drop_last());
        match ops.last() {
            Operation::Put { key, .. } => m.insert(key@, (current(m, key@) + 1) as u64),
            Operation::Get { .. } => m,
        }
    }
}

/// How many of `ops` write `key`.
pub open spec fn writes_of(ops: Seq<Operation>, key: Seq<char>) -> nat
    decreases ops.len(),
{
    if ops.len() == 0 {
        0
    } else {
        writes_of(ops.drop_last(), key) + match ops.last() {
            Operation::Put { key: k, .. } => if k@ == key {
                1nat
            } else {
                0nat
            },
            Operation::Get { .. } => 0nat,
        }
    }
}

proof fn lemma_writes_of_bound(ops: Seq<Operation>, key: Seq<char>)
    ensures
        writes_of(ops, key) <= ops.len(),
    decreases ops.len(),
{
    if ops.len() > 0 {
        lemma_writes_of_bound(ops.drop_last(), key);
    }
}

/// Within one run, which starts with a new tracker, the versions a key is
/// written with are 1, 2, 3, ... with no gap or repeat: after planning any
/// sequence of operations, a key's version is the number of writes of it,
/// so the `k`-th operation, when it writes, gets one more than the writes
/// of its key before it.
pub proof fn law_versions_count_writes(ops: Seq<Operation>, key: Seq<char>)
    requires
        ops.len() < u64::MAX,
    ensures
        current(counts_after(ops), key) == writes_of(ops, key),
        forall|k: int|
            0 <= k < ops.len() ==> (#[trigger] ops[k] matches Operation::Put { key: kk, .. } ==> current(
                counts_after(ops.take(k)),
                kk@,
            ) + 1 == 1 + writes_of(ops.take(k), kk@)),
    decreases ops.len(),
{
    if ops.len() > 0 {
        let d = ops.drop_last();
        law_versions_count_writes(d, key);
        lemma_writes_of_bound(d, key);
        match ops.last() {
            Operation::Put { key: k, .. } => {
                lemma_writes_of_bound(d, k@);
                law_versions_count_writes(d, k@);
            },
            Operation::Get { .. } => {},
        }
        assert forall|k: int|
            0 <= k < ops.len() implies (#[trigger] ops[k] matches Operation::Put { key: kk, .. }
            ==> current(counts_after(ops.take(k)), kk@) + 1 == 1 + writes_of(ops.take(k), kk@)) by {
            if let Operation::Put { key: kk, .. } = ops[k] {
                law_versions_count_writes(ops.take(k), kk@);
            }
        }
    }
}

/// What is recorded of one operation.
#[derive(Debug, Clone, PartialEq, Eq)]
pub struct OpRecord {
    /// `PUT` or `GET`.
    pub operation: String,
    pub key: String,
    pub success: bool,
    /// The version written, or the version the value read carried.
    pub version: Option<u64>,
}

/// The version that a read saw: none when it failed or found nothing.
pub open spec fn version_read(read: Result<Option<String>, String>) -> Option<u64> {
    match read {
        Ok(Some(v)) => version_in(v@),
        _ => None,
    }
}

/// The record of a write of `key` under `version`.
pub fn put_record(key: String, version: u64, succeeded: bool) -> (r: OpRecord)
    ensures
        r.operation@ == "PUT"@,
        r.key@ == key@,
        r.success == succeeded,
        r.version == Some(version),
{
    OpRecord { operation: "PUT".to_owned(), key, success: succeeded, version: Some(version) }
}

/// The record of a read of `key`: it succeeded when the store answered,
/// and carries the version of the value it found, if that value has one.
pub fn get_record(key: String, read: &Result<Option<String>, String>) -> (r: OpRecord)
    ensures
        r.operation@ == "GET"@,
        r.key@ == key@,
        r.success == read is Ok,
        r.version == version_read(*read),
{
    let version = match read {
        Ok(Some(v)) => version_of(v.as_str()),
        _ => None,
    };
    OpRecord { operation: "GET".to_owned(), key, success: read.is_ok(), version }
}

/// A read of the value that a planned write sent records the version that
/// the write recorded.
pub proof fn law_read_records_written_version(version: u64, value: Seq<char>, stored: String)
    requires
        stored@ == versioned(version, value),
    ensures
        version_read(Ok::<Option<String>, String>(Some(stored))) == Some(version),
{
    law_version_round_trip(version, value);
}

} // verus!
