//! The layout of the metrics file: where it is written and what each row
//! holds.

use vstd::prelude::*;
use crate::runner::OpRecord;
use crate::text::{
    before_char, copy_range, lemma_before_char_absent, lemma_before_char_split, str_chars,
    string_from_chars, views,
};

verus! {

/// Where the metrics of a run go: `results/<system>_<workload>_<timestamp>.csv`.
pub open spec fn results_path_text(system: Seq<char>, workload: Seq<char>, timestamp: Seq<char>) -> Seq<char> {
    "results/"@ + system + "_"@ + workload + "_"@ + timestamp + ".csv"@
}

/// How a flag is written: `true` or `false`.
pub open spec fn bool_text(b: bool) -> Seq<char> {
    if b {
        "true"@
    } else {
        "false"@
    }
}

/// The names of the metrics columns, in order.
pub open spec fn header_columns() -> Seq<Seq<char>> {
    seq![
        "timestamp"@,
        "elapsed_seconds"@,
        "system"@,
        "workload"@,
        "operation"@,
        "key"@,
        "latency_ms"@,
        "success"@,
    ]
}

/// Texts separated by commas.
pub open spec fn join_fields(fs: Seq<Seq<char>>) -> Seq<char>
    decreases fs.len(),
{
    if fs.len() == 0 {
        Seq::<char>::empty()
    } else if fs.len() == 1 {
        fs[0]
    } else {
        join_fields(fs.drop_last()) + seq![','] + fs.last()
    }
}

/// The first line of every metrics file: the column names.
pub open spec fn header_text() -> Seq<char> {
    join_fields(header_columns())
}

/// A text in double quotes.
pub open spec fn quoted(k: Seq<char>) -> Seq<char> {
    seq!['"'] + k + seq!['"']
}

/// The fields of a row as written: the clock time, the seconds since the
/// start, system, workload and operation as given, the key in double
/// quotes, the latency as given, and the success flag.
pub open spec fn row_texts(
    timestamp: Seq<char>,
    elapsed: Seq<char>,
    system: Seq<char>,
    workload: Seq<char>,
    operation: Seq<char>,
    key: Seq<char>,
    latency: Seq<char>,
    success: bool,
) -> Seq<Seq<char>> {
    seq![timestamp, elapsed, system, workload, operation, quoted(key), latency, bool_text(success)]
}

/// The values a row holds, one per column of the header.
pub open spec fn row_values(
    timestamp: Seq<char>,
    elapsed: Seq<char>,
    system: Seq<char>,
    workload: Seq<char>,
    operation: Seq<char>,
    key: Seq<char>,
    latency: Seq<char>,
    success: bool,
) -> Seq<Seq<char>> {
    seq![timestamp, elapsed, system, workload, operation, key, latency, bool_text(success)]
}

/// One row of the metrics file: its fields separated by commas.
pub open spec fn csv_row_text(
    timestamp: Seq<char>,
    elapsed: Seq<char>,
    system: Seq<char>,
    workload: Seq<char>,
    operation: Seq<char>,
    key: Seq<char>,
    latency: Seq<char>,
    success: bool,
) -> Seq<char> {
    join_fields(row_texts(timestamp, elapsed, system, workload, operation, key, latency, success))
}

/// Whether `c` does not occur in `s`.
pub open spec fn lacks(s: Seq<char>, c: char) -> bool {
    forall|i: int| 0 <= i < s.len() ==> s[i] != c
}

/// Where the field that starts `s` ends: after its closing quote when it
/// starts with a double quote, else at the first comma.
pub open spec fn field_end(s: Seq<char>) -> int {
    if s.len() > 0 && s[0] == '"' {
        before_char(s.drop_first(), '"').len() as int + 2
    } else {
        before_char(s, ',').len() as int
    }
}

/// The value of the field that starts `s`: the text between its quotes
/// when it starts with a double quote, else the text up to the first comma.
pub open spec fn field_value(s: Seq<char>) -> Seq<char> {
    if s.len() > 0 && s[0] == '"' {
        before_char(s.drop_first(), '"')
    } else {
        before_char(s, ',')
    }
}

proof fn lemma_before_char_len(s: Seq<char>, c: char)
    ensures
        before_char(s, c).len() <= s.len(),
    decreases s.len(),
{
    if s.len() > 0 && s[0] != c {
        lemma_before_char_len(s.drop_first(), c);
    }
}

/// How a CSV reader splits a line into field values, one field after
/// another, each followed by a comma or the end of the line.
pub open spec fn csv_split(s: Seq<char>) -> Seq<Seq<char>>
    decreases s.len(),
{
    let e = field_end(s);
    if e >= s.len() || e < 0 {
        seq![field_value(s)]
    } else {
        seq![field_value(s)] + csv_split(s.skip(e + 1))
    }
}

/// Whether a field text reads back whole: unquoted without commas, or in
/// double quotes without double quotes inside.
pub open spec fn field_ok(t: Seq<char>) -> bool {
    ||| lacks(t, ',') && (t.len() == 0 || t[0] != '"')
    ||| t.len() >= 2 && t[0] == '"' && t.last() == '"' && lacks(t.subrange(1, t.len() - 1), '"')
}

/// The value that a field text stands for.
pub open spec fn field_decoded(t: Seq<char>) -> Seq<char> {
    if t.len() >= 2 && t[0] == '"' {
        t.subrange(1, t.len() - 1)
    } else {
        t
    }
}

proof fn lemma_field(t: Seq<char>, rest: Seq<char>)
    requires
        field_ok(t),
    ensures
        rest.len() == 0 || rest[0] == ',' ==> field_value(t + rest) == field_decoded(t),
        rest.len() > 0 && rest[0] == ',' ==> field_end(t + rest) == t.len(),
        rest.len() == 0 ==> field_end(t + rest) >= t.len(),
{
    let s = t + rest;
    if t.len() >= 2 && t[0] == '"' {
        let k = t.subrange(1, t.len() - 1);
        assert(s.drop_first() =~= k + seq!['"'] + rest);
        lemma_before_char_split(k, '"', rest);
    } else if rest.len() > 0 && rest[0] == ',' {
        assert(s =~= t + seq![','] + rest.drop_first());
        lemma_before_char_split(t, ',', rest.drop_first());
    } else if rest.len() == 0 {
        assert(s =~= t);
        lemma_before_char_absent(t, ',');
    }
}

proof fn lemma_join_front(fs: Seq<Seq<char>>)
    requires
        fs.len() >= 2,
    ensures
        join_fields(fs) == fs[0] + seq![','] + join_fields(fs.drop_first()),
    decreases fs.len(),
{
    let dl = fs.drop_last();
    let df = fs.drop_first();
    if fs.len() > 2 {
        lemma_join_front(dl);
        assert(dl.drop_first() =~= df.drop_last());
        assert(df.last() == fs.last());
        assert(dl[0] == fs[0]);
        assert(join_fields(fs) =~= fs[0] + seq![','] + join_fields(df));
    } else {
        assert(df.len() == 1);
        assert(dl.len() == 1);
        assert(join_fields(dl) == fs[0]);
        assert(join_fields(df) == fs[1]);
    }
}

/// A line of fields that read back whole splits into their values.
pub proof fn lemma_split_join(fs: Seq<Seq<char>>)
    requires
        fs.len() >= 1,
        forall|i: int| 0 <= i < fs.len() ==> field_ok(#[trigger] fs[i]),
    ensures
        csv_split(join_fields(fs)) == fs.map_values(|t: Seq<char>| field_decoded(t)),
    decreases fs.len(),
{
    let s = join_fields(fs);
    assert(field_ok(fs[0]));
    if fs.len() == 1 {
        lemma_field(fs[0], Seq::<char>::empty());
        assert(s =~= fs[0] + Seq::<char>::empty());
        assert(csv_split(s) =~= fs.map_values(|t: Seq<char>| field_decoded(t)));
    } else {
        lemma_join_front(fs);
        let rest = fs.drop_first();
        let tail = seq![','] + join_fields(rest);
        assert(s =~= fs[0] + tail);
        lemma_field(fs[0], tail);
        assert(s.skip(fs[0].len() as int + 1) =~= join_fields(rest));
        assert forall|i: int| 0 <= i < rest.len() implies field_ok(#[trigger] rest[i]) by {
            assert(rest[i] == fs[i + 1]);
        }
        lemma_split_join(rest);
        assert(csv_split(s) =~= fs.map_values(|t: Seq<char>| field_decoded(t)));
    }
}

fn push_str(out: &mut Vec<char>, s: &str)
    ensures
        final(out)@ == old(out)@ + s@,
{
    let mut chars = str_chars(s);
    out.append(&mut chars);
}

/// The path of the metrics file of a run.
pub fn results_path(system: &str, workload: &str, timestamp: &str) -> (r: String)
    ensures
        r@ == results_path_text(system@, workload@, timestamp@),
{
    let mut out: Vec<char> = Vec::new();
    push_str(&mut out, "results/");
    push_str(&mut out, system);
    push_str(&mut out, "_");
    push_str(&mut out, workload);
    push_str(&mut out, "_");
    push_str(&mut out, timestamp);
    push_str(&mut out, ".csv");
    assert(out@ =~= results_path_text(system@, workload@, timestamp@));
    string_from_chars(out.as_slice())
}

/// The texts separated by commas.
pub fn join_with_commas(fields: &Vec<Vec<char>>) -> (r: Vec<char>)
    ensures
        r@ == join_fields(views(fields@)),
{
    let mut out: Vec<char> = Vec::new();
    let mut i: usize = 0;
    while i < fields.len()
        invariant
            i <= fields@.len(),
            out@ == join_fields(views(fields@).take(i as int)),
        decreases fields@.len() - i,
    {
        let ghost fs = views(fields@);
        let ghost before = out@;
        assert(fs.take(i + 1).drop_last() =~= fs.take(i as int));
        if i > 0 {
            out.push(',');
        }
        let mut field = copy_range(fields[i].as_slice(), 0, fields[i].len());
        assert(field@ =~= fields@[i as int]@);
        out.append(&mut field);
        if i == 0 {
            assert(fs.take(1) =~= seq![fs[0]]);
        }
        assert(out@ =~= join_fields(fs.take(i + 1)));
        i = i + 1;
    }
    assert(views(fields@).take(fields@.len() as int) =~= views(fields@));
    out
}

/// The first line of every metrics file: the column names separated by
/// commas.
pub fn csv_header() -> (r: String)
    ensures
        r@ == header_text(),
{
    let fields = vec![
        str_chars("timestamp"),
        str_chars("elapsed_seconds"),
        str_chars("system"),
        str_chars("workload"),
        str_chars("operation"),
        str_chars("key"),
        str_chars("latency_ms"),
        str_chars("success"),
    ];
    assert(views(fields@) =~= header_columns());
    string_from_chars(join_with_commas(&fields).as_slice())
}

/// One row of the metrics file for an operation's record; the times come
/// already written.
pub fn csv_row(
    timestamp: &str,
    elapsed: &str,
    system: &str,
    workload: &str,
    record: &OpRecord,
    latency: &str,
) -> (r: String)
    ensures
        r@ == csv_row_text(
            timestamp@,
            elapsed@,
            system@,
            workload@,
            record.operation@,
            record.key@,
            latency@,
            record.success,
        ),
{
    let mut key: Vec<char> = Vec::new();
    key.push('"');
    push_str(&mut key, record.key.as_str());
    key.push('"');
    assert(key@ =~= quoted(record.key@));
    let success = if record.success {
        str_chars("true")
    } else {
        str_chars("false")
    };
    let fields = vec![
        str_chars(timestamp),
        str_chars(elapsed),
        str_chars(system),
        str_chars(workload),
        str_chars(record.operation.as_str()),
        key,
        str_chars(latency),
        success,
    ];
    assert(views(fields@) =~= row_texts(
        timestamp@,
        elapsed@,
        system@,
        workload@,
        record.operation@,
        record.key@,
        latency@,
        record.success,
    ));
    string_from_chars(join_with_commas(&fields).as_slice())
}

proof fn lemma_plain(t: Seq<char>)
    requires
        lacks(t, ','),
        lacks(t, '"'),
    ensures
        field_ok(t),
        field_decoded(t) == t,
{
    if t.len() > 0 {
        assert(t[0] != '"');
    }
}

/// Each row has one field per header column, and a CSV reader finds in
/// field `j` the value of column `j`, the key included even when it holds
/// commas; a row holds no line break, so it is one record.
pub proof fn law_row_matches_header(
    timestamp: Seq<char>,
    elapsed: Seq<char>,
    system: Seq<char>,
    workload: Seq<char>,
    operation: Seq<char>,
    key: Seq<char>,
    latency: Seq<char>,
    success: bool,
)
    requires
        lacks(timestamp, ',') && lacks(timestamp, '"'),
        lacks(elapsed, ',') && lacks(elapsed, '"'),
        lacks(system, ',') && lacks(system, '"'),
        lacks(workload, ',') && lacks(workload, '"'),
        lacks(operation, ',') && lacks(operation, '"'),
        lacks(latency, ',') && lacks(latency, '"'),
        lacks(key, '"'),
        lacks(timestamp, '\n') && lacks(elapsed, '\n') && lacks(system, '\n') && lacks(
            workload,
            '\n',
        ) && lacks(operation, '\n') && lacks(key, '\n') && lacks(latency, '\n'),
    ensures
        csv_split(header_text()) == header_columns(),
        csv_split(csv_row_text(timestamp, elapsed, system, workload, operation, key, latency, success))
            == row_values(timestamp, elapsed, system, workload, operation, key, latency, success),
        row_values(timestamp, elapsed, system, workload, operation, key, latency, success).len()
            == header_columns().len(),
        lacks(csv_row_text(timestamp, elapsed, system, workload, operation, key, latency, success), '\n'),
{
    reveal_strlit("timestamp");
    reveal_strlit("elapsed_seconds");
    reveal_strlit("system");
    reveal_strlit("workload");
    reveal_strlit("operation");
    reveal_strlit("key");
    reveal_strlit("latency_ms");
    reveal_strlit("success");
    reveal_strlit("true");
    reveal_strlit("false");
    let h = header_columns();
    assert forall|i: int| 0 <= i < h.len() implies field_ok(#[trigger] h[i]) && field_decoded(h[i]) == h[i] by {
        lemma_plain(h[i]);
    }
    lemma_split_join(h);
    assert(h.map_values(|t: Seq<char>| field_decoded(t)) =~= h);
    let fs = row_texts(timestamp, elapsed, system, workload, operation, key, latency, success);
    let vs = row_values(timestamp, elapsed, system, workload, operation, key, latency, success);
    lemma_plain(timestamp);
    lemma_plain(elapsed);
    lemma_plain(system);
    lemma_plain(workload);
    lemma_plain(operation);
    lemma_plain(latency);
    lemma_plain(bool_text(success));
    let q = quoted(key);
    assert(q.subrange(1, q.len() - 1) =~= key);
    assert(field_ok(q));
    assert forall|i: int| 0 <= i < fs.len() implies field_ok(#[trigger] fs[i]) by {}
    lemma_split_join(fs);
    assert(fs.map_values(|t: Seq<char>| field_decoded(t)) =~= vs);
    lemma_join_lacks(fs, '\n');
}

proof fn lemma_join_lacks(fs: Seq<Seq<char>>, c: char)
    requires
        c != ',',
        forall|i: int| 0 <= i < fs.len() ==> lacks(#[trigger] fs[i], c),
    ensures
        lacks(join_fields(fs), c),
    decreases fs.len(),
{
    if fs.len() >= 2 {
        lemma_join_lacks(fs.drop_last(), c);
        let j = join_fields(fs);
        let a = join_fields(fs.drop_last());
        assert(lacks(fs.last(), c));
        assert forall|i: int| 0 <= i < j.len() implies j[i] != c by {
            if i < a.len() {
                assert(j[i] == a[i]);
            } else if i > a.len() {
                assert(j[i] == fs.last()[i - a.len() - 1]);
            }
        }
    } else if fs.len() == 1 {
        assert(lacks(fs[0], c));
    }
}

} // verus!
