//! The AntidoteDB adapter: the Erlang expressions it evaluates in the
//! container and how it reads their output.

use vstd::prelude::*;
use vstd::utf8::{decode_utf8, encode_utf8, valid_utf8};
use crate::base64::{
    decode_base64, law_decode_inverts_encode, lemma_encode_alphabet, spec_decode,
    spec_encode, Base64Error,
};
use std::string::FromUtf8Error;
use crate::text::{
    chars_equal, chars_start_with, utf8_to_string, copy_range, is_white_space, lemma_first_line,
    lemma_trim_no_white_space, lines, split_lines, starts_with, str_chars, string_from_chars,
    trim, trim_chars, views,
};

verus! {

/// How an AntidoteDB request failed.
#[derive(Debug)]
pub enum AntidoteError {
    /// The container did not answer a ping; the trimmed error output.
    ConnectFailed { container: String, detail: String },
    /// An evaluation exited with failure; the trimmed error output.
    EvalFailed(String),
    /// A read returned a value that is not valid base64.
    InvalidBase64(Base64Error),
    /// A read returned bytes that are not valid UTF-8.
    InvalidUtf8(FromUtf8Error),
    /// A read answered with an error line, given whole.
    UnexpectedPayload(String),
    /// No line of a read's output could be understood.
    Unparseable,
}

/// The container and bucket that an adapter addresses.
#[derive(Debug, Clone)]
pub struct AntidoteStore {
    pub container: String,
    pub bucket: String,
}

/// The container used when no endpoint is given.
pub open spec fn default_container() -> Seq<char> {
    "antidote1"@
}

/// The bucket that all objects are stored in.
pub open spec fn store_bucket() -> Seq<char> {
    "kv_gauntlet"@
}

/// The Erlang escape of one character: backslash, double quote, line feed,
/// carriage return and tab get a backslash sequence, all others stand as
/// they are.
pub open spec fn escape_char(c: char) -> Seq<char> {
    if c == '\\' {
        seq!['\\', '\\']
    } else if c == '"' {
        seq!['\\', '"']
    } else if c == '\n' {
        seq!['\\', 'n']
    } else if c == '\r' {
        seq!['\\', 'r']
    } else if c == '\t' {
        seq!['\\', 't']
    } else {
        seq![c]
    }
}

/// The Erlang escape of a text, character by character.
pub open spec fn escaped(s: Seq<char>) -> Seq<char>
    decreases s.len(),
{
    if s.len() == 0 {
        Seq::<char>::empty()
    } else {
        escape_char(s[0]) + escaped(s.drop_first())
    }
}

/// The Erlang binary literal `<<"...">>` of a text.
pub open spec fn binary_literal(s: Seq<char>) -> Seq<char> {
    seq!['<', '<', '"'] + escaped(s) + seq!['"', '>', '>']
}

/// The part of every expression that names the object of `key`.
pub open spec fn object_part(key: Seq<char>, bucket: Seq<char>) -> Seq<char> {
    "Obj={"@ + binary_literal(key) + ", antidote_crdt_register_lww, "@ + binary_literal(bucket)
        + "}, {ok,Tx}=antidote:start_transaction(ignore,[{update_clock,true}]), "@
}

/// The text a register holds for a written value: the value behind a `#`.
/// A register never written holds the empty binary, so a key written with
/// the empty text still reads back as that text, not as missing.
pub open spec fn stored_form(value: Seq<char>) -> Seq<char> {
    seq!['#'] + value
}

/// The value that a register's text stands for: the text without its
/// leading `#`, or the whole text when it has none.
pub open spec fn unmarked(t: Seq<char>) -> Seq<char> {
    if t.len() > 0 && t[0] == '#' {
        t.drop_first()
    } else {
        t
    }
}

/// The expression that writes `value` under `key` in `bucket`.
pub open spec fn put_text(key: Seq<char>, value: Seq<char>, bucket: Seq<char>) -> Seq<char> {
    object_part(key, bucket) + "ok=antidote:update_objects([{Obj, assign, "@ + binary_literal(
        stored_form(value),
    ) + "}], Tx), {ok,_}=antidote:commit_transaction(Tx)."@
}

/// The expression that reads `key` in `bucket` and prints one marked line.
pub open spec fn get_text(key: Seq<char>, bucket: Seq<char>) -> Seq<char> {
    object_part(key, bucket) + get_tail()
}

/// What the read expression does after naming the object.
pub open spec fn get_tail() -> Seq<char> {
    "Read=antidote:read_objects([Obj], Tx), {ok,_}=antidote:commit_transaction(Tx), case Read of {ok,[<<>>]} -> io:format(\"KVGAUNTLET_NONE~n\", []); {ok,[V]} -> io:format(\"KVGAUNTLET_VALUE=~s~n\", [binary_to_list(base64:encode(V))]); Other -> io:format(\"KVGAUNTLET_ERR=~p~n\", [Other]) end."@
}

/// The mark of a line that carries a value in base64.
pub open spec fn value_mark() -> Seq<char> {
    "KVGAUNTLET_VALUE="@
}

/// The line that says the key holds nothing.
pub open spec fn none_mark() -> Seq<char> {
    "KVGAUNTLET_NONE"@
}

/// The mark of a line that carries an error.
pub open spec fn error_mark() -> Seq<char> {
    "KVGAUNTLET_ERR="@
}

/// Whether a line of read output decides the read.
pub open spec fn decides(l: Seq<char>) -> bool {
    starts_with(l, value_mark()) || trim(l) == none_mark() || starts_with(l, error_mark())
}

/// The index of the first deciding line, or the number of lines.
pub open spec fn first_deciding(ls: Seq<Seq<char>>) -> nat
    decreases ls.len(),
{
    if ls.len() == 0 {
        0
    } else if decides(ls[0]) {
        0
    } else {
        1 + first_deciding(ls.drop_first())
    }
}

/// The bytes that a value line carries: its base64 text after the mark,
/// trimmed, decoded.
pub open spec fn value_bytes(l: Seq<char>) -> Result<Seq<u8>, Base64Error> {
    spec_decode(encode_utf8(trim(l.skip(value_mark().len() as int))))
}

/// What a read's output means, judged by its first deciding line: a value
/// line gives the decoded value, the none line gives no value, an error
/// line is refused whole; output with no deciding line is refused.
pub open spec fn read_reply_ok(out: Seq<char>, r: Result<Option<String>, AntidoteError>) -> bool {
    let ls = lines(out);
    let k = first_deciding(ls) as int;
    if k >= ls.len() {
        r == Err::<Option<String>, AntidoteError>(AntidoteError::Unparseable)
    } else {
        let l = ls[k];
        if starts_with(l, value_mark()) {
            match value_bytes(l) {
                Err(e) => r == Err::<Option<String>, AntidoteError>(
                    AntidoteError::InvalidBase64(e),
                ),
                Ok(bytes) => if valid_utf8(bytes) {
                    r matches Ok(Some(v)) && v@ == unmarked(decode_utf8(bytes))
                } else {
                    r matches Err(AntidoteError::InvalidUtf8(_))
                },
            }
        } else if trim(l) == none_mark() {
            r == Ok::<Option<String>, AntidoteError>(None)
        } else {
            r matches Err(AntidoteError::UnexpectedPayload(p)) && p@ == l
        }
    }
}

/// What `String::from_utf8_lossy` makes of `bytes`.
pub uninterp spec fn lossy_utf8(bytes: Seq<u8>) -> Seq<char>;

/// `String::from_utf8_lossy`, made owned: claims the result is a function of
/// the bytes alone (named `lossy_utf8`) and that valid UTF-8 comes through
/// decoded unchanged; how invalid sequences are replaced is not stated.
#[verifier::external_body]
fn utf8_lossy(bytes: &[u8]) -> (r: String)
    ensures
        r@ == lossy_utf8(bytes@),
        valid_utf8(bytes@) ==> r@ == decode_utf8(bytes@),
{
    String::from_utf8_lossy(bytes).into_owned()
}

/// `ToString::to_string` of a UTF-8 conversion error; nothing is claimed of
/// the text.
#[verifier::external_body]
fn utf8_error_message(e: &FromUtf8Error) -> String {
    e.to_string()
}

/// The text `msg` followed by `detail`.
fn message_with(msg: &str, detail: &[char]) -> (r: String)
    ensures
        r@ == msg@ + detail@,
{
    let mut out: Vec<char> = Vec::new();
    push_str(&mut out, msg);
    push_chars(&mut out, detail);
    string_from_chars(out.as_slice())
}

/// What an evaluation in the container gives: its output when it exited
/// with success, else its trimmed error output.
pub fn eval_outcome(success: bool, stdout: &[u8], stderr: &[u8]) -> (r: Result<
    String,
    AntidoteError,
>)
    ensures
        success ==> (r matches Ok(s) && s@ == lossy_utf8(stdout@)),
        !success ==> (r matches Err(AntidoteError::EvalFailed(d)) && d@ == trim(
            lossy_utf8(stderr@),
        )),
{
    if success {
        Ok(utf8_lossy(stdout))
    } else {
        let err = utf8_lossy(stderr);
        let chars = str_chars(err.as_str());
        let trimmed = trim_chars(chars.as_slice());
        Err(AntidoteError::EvalFailed(string_from_chars(trimmed.as_slice())))
    }
}

impl AntidoteError {
    /// The message that reports the failure.
    pub fn message(&self) -> (r: String)
        ensures
            match self {
                AntidoteError::ConnectFailed { container, detail } => r@ == "Failed to connect to Antidote container '"@ + container@ + "': "@ + detail@,
                AntidoteError::EvalFailed(d) => r@ == "Antidote eval failed: "@ + d@,
                AntidoteError::InvalidBase64(Base64Error::InvalidLength) => r@ == "Invalid base64 length"@,
                AntidoteError::InvalidBase64(Base64Error::InvalidCharacter) => r@ == "Invalid base64 character"@,
                AntidoteError::InvalidUtf8(_) => true,
                AntidoteError::UnexpectedPayload(l) => r@ == "Antidote read returned unexpected payload: "@ + l@,
                AntidoteError::Unparseable => r@ == "Antidote read did not return a parseable value"@,
            },
    {
        match self {
            AntidoteError::ConnectFailed { container, detail } => {
                let mut out: Vec<char> = Vec::new();
                push_str(&mut out, "Failed to connect to Antidote container '");
                push_str(&mut out, container.as_str());
                push_str(&mut out, "': ");
                push_str(&mut out, detail.as_str());
                string_from_chars(out.as_slice())
            },
            AntidoteError::EvalFailed(d) => {
                let chars = str_chars(d.as_str());
                message_with("Antidote eval failed: ", chars.as_slice())
            },
            AntidoteError::InvalidBase64(Base64Error::InvalidLength) => {
                "Invalid base64 length".to_owned()
            },
            AntidoteError::InvalidBase64(Base64Error::InvalidCharacter) => {
                "Invalid base64 character".to_owned()
            },
            AntidoteError::InvalidUtf8(e) => utf8_error_message(e),
            AntidoteError::UnexpectedPayload(l) => {
                let chars = str_chars(l.as_str());
                message_with("Antidote read returned unexpected payload: ", chars.as_slice())
            },
            AntidoteError::Unparseable => {
                "Antidote read did not return a parseable value".to_owned()
            },
        }
    }
}

/// The characters that stand for ASCII bytes.
pub open spec fn ascii_chars(b: Seq<u8>) -> Seq<char> {
    b.map_values(|x: u8| x as char)
}

/// The line that the read expression prints for a key written with `v`:
/// the value mark, then the base64 of the UTF-8 bytes of its stored form.
pub open spec fn value_line(v: Seq<char>) -> Seq<char> {
    value_mark() + ascii_chars(spec_encode(encode_utf8(stored_form(v))))
}

/// A read gives back the text that was written, the empty text included:
/// a write never leaves the register as empty as a key never written, and
/// when the container prints the value line of a written text, reading its
/// output yields exactly that text, whatever lines follow the value line.
pub proof fn law_read_returns_stored_text(
    v: Seq<char>,
    rest: Seq<char>,
    r: Result<Option<String>, AntidoteError>,
)
    requires
        read_reply_ok(value_line(v).push('\n') + rest, r),
    ensures
        binary_literal(stored_form(v)) != binary_literal(Seq::<char>::empty()),
        r matches Ok(Some(s)) && s@ == v,
{
    reveal_strlit("KVGAUNTLET_VALUE=");
    law_binary_literal_injective(stored_form(v), Seq::<char>::empty());
    assert(stored_form(v).len() > 0);
    let stored = stored_form(v);
    assert(unmarked(stored) =~= v);
    let bytes = encode_utf8(stored);
    let enc = spec_encode(bytes);
    lemma_encode_alphabet(bytes);
    let text = ascii_chars(enc);
    let l = value_line(v);
    assert forall|i: int| 0 <= i < text.len() implies !is_white_space(#[trigger] text[i]) && '\0'
        <= text[i] <= '\u{7f}' by {
        assert(43 <= enc[i] <= 122);
    }
    assert forall|i: int| 0 <= i < l.len() implies l[i] != '\n' by {
        if i >= value_mark().len() {
            assert(l[i] == text[i - value_mark().len()]);
        }
    }
    assert(l.last() != '\r') by {
        if text.len() > 0 {
            assert(l.last() == text[text.len() - 1]);
        }
    }
    lemma_first_line(l, rest);
    let ls = lines(l.push('\n') + rest);
    assert(ls[0] == l);
    assert(l.take(value_mark().len() as int) =~= value_mark());
    assert(starts_with(l, value_mark()));
    assert(first_deciding(ls) == 0);
    assert(l.skip(value_mark().len() as int) =~= text);
    lemma_trim_no_white_space(text);
    vstd::utf8::is_ascii_chars_encode_utf8(text);
    assert(encode_utf8(text) =~= enc);
    law_decode_inverts_encode(bytes);
    vstd::utf8::encode_utf8_valid_utf8(stored);
    vstd::utf8::encode_utf8_decode_utf8(stored);
}

/// Undoes the Erlang escape of one character.
pub open spec fn unescape_char(c: char) -> char {
    if c == 'n' {
        '\n'
    } else if c == 'r' {
        '\r'
    } else if c == 't' {
        '\t'
    } else {
        c
    }
}

/// Undoes the Erlang escape of a text.
pub open spec fn unescaped(t: Seq<char>) -> Seq<char>
    decreases t.len(),
{
    if t.len() == 0 {
        Seq::<char>::empty()
    } else if t[0] == '\\' && t.len() >= 2 {
        seq![unescape_char(t[1])] + unescaped(t.skip(2))
    } else {
        seq![t[0]] + unescaped(t.drop_first())
    }
}

proof fn lemma_unescape_escaped(s: Seq<char>)
    ensures
        unescaped(escaped(s)) == s,
    decreases s.len(),
{
    if s.len() > 0 {
        let rest = s.drop_first();
        lemma_unescape_escaped(rest);
        let e = escaped(s);
        let c = s[0];
        assert(e == escape_char(c) + escaped(rest));
        if escape_char(c).len() == 2 {
            assert(e.skip(2) =~= escaped(rest));
        } else {
            assert(e.drop_first() =~= escaped(rest));
        }
        assert(seq![c] + rest =~= s);
    }
}

proof fn lemma_escaped_chars(s: Seq<char>)
    ensures
        forall|i: int|
            0 <= i < escaped(s).len() ==> #[trigger] escaped(s)[i] != '\n' && escaped(s)[i] != '\r'
                && escaped(s)[i] != '\t',
        forall|i: int|
            0 <= i < escaped(s).len() && #[trigger] escaped(s)[i] == '"' ==> i > 0 && escaped(
                s,
            )[i - 1] == '\\',
    decreases s.len(),
{
    if s.len() > 0 {
        let rest = s.drop_first();
        lemma_escaped_chars(rest);
        let e = escaped(s);
        let h = escape_char(s[0]);
        assert(e == h + escaped(rest));
        assert forall|i: int| 0 <= i < e.len() implies #[trigger] e[i] != '\n' && e[i] != '\r'
            && e[i] != '\t' && (e[i] == '"' ==> i > 0 && e[i - 1] == '\\') by {
            if i >= h.len() {
                assert(e[i] == escaped(rest)[i - h.len()]);
                if i - h.len() > 0 {
                    assert(e[i - 1] == escaped(rest)[i - h.len() - 1]);
                }
            }
        }
    }
}

/// Erlang reads a binary literal back as its text: the escaped text holds
/// no raw line feed, carriage return or tab, every double quote in it
/// follows a backslash, and undoing the escapes gives the text back.
pub proof fn law_escape_reads_back(s: Seq<char>)
    ensures
        unescaped(escaped(s)) == s,
        forall|i: int|
            0 <= i < escaped(s).len() ==> #[trigger] escaped(s)[i] != '\n' && escaped(s)[i] != '\r'
                && escaped(s)[i] != '\t',
        forall|i: int|
            0 <= i < escaped(s).len() && #[trigger] escaped(s)[i] == '"' ==> i > 0 && escaped(
                s,
            )[i - 1] == '\\',
{
    lemma_unescape_escaped(s);
    lemma_escaped_chars(s);
}

/// Escaping works one character at a time: the escape of two texts joined
/// is their escapes joined.
pub proof fn law_escape_concat(a: Seq<char>, b: Seq<char>)
    ensures
        escaped(a + b) == escaped(a) + escaped(b),
    decreases a.len(),
{
    if a.len() > 0 {
        law_escape_concat(a.drop_first(), b);
        assert((a + b).drop_first() =~= a.drop_first() + b);
        assert((a + b)[0] == a[0]);
        assert(escaped(a + b) =~= escaped(a) + escaped(b));
    } else {
        assert(a + b =~= b);
        assert(escaped(a) + escaped(b) =~= escaped(b));
    }
}

/// A character other than backslash, double quote, line feed, carriage
/// return and tab stands as itself, so the literal of a text without them
/// is the text between `<<"` and `">>`.
pub proof fn law_literal_plain(s: Seq<char>)
    requires
        forall|i: int|
            0 <= i < s.len() ==> #[trigger] s[i] != '\\' && s[i] != '"' && s[i] != '\n' && s[i]
                != '\r' && s[i] != '\t',
    ensures
        escaped(s) == s,
        binary_literal(s) == seq!['<', '<', '"'] + s + seq!['"', '>', '>'],
    decreases s.len(),
{
    if s.len() > 0 {
        assert(s[0] != '\\' && s[0] != '"' && s[0] != '\n' && s[0] != '\r' && s[0] != '\t');
        let rest = s.drop_first();
        assert forall|i: int|
            0 <= i < rest.len() implies #[trigger] rest[i] != '\\' && rest[i] != '"' && rest[i]
            != '\n' && rest[i] != '\r' && rest[i] != '\t' by {
            assert(rest[i] == s[i + 1]);
        }
        law_literal_plain(rest);
        assert(escaped(s) =~= s);
    }
}

/// The five escaped characters: each becomes a backslash followed by
/// itself, or by `n`, `r`, `t` for line feed, carriage return and tab.
pub proof fn law_escape_specials()
    ensures
        escaped(seq!['\\']) == seq!['\\', '\\'],
        escaped(seq!['"']) == seq!['\\', '"'],
        escaped(seq!['\n']) == seq!['\\', 'n'],
        escaped(seq!['\r']) == seq!['\\', 'r'],
        escaped(seq!['\t']) == seq!['\\', 't'],
{
    lemma_escape_one('\\');
    lemma_escape_one('"');
    lemma_escape_one('\n');
    lemma_escape_one('\r');
    lemma_escape_one('\t');
}

proof fn lemma_escape_one(c: char)
    ensures
        escaped(seq![c]) == escape_char(c),
{
    let s = seq![c];
    assert(s.len() == 1 && s[0] == c);
    assert(s.drop_first() =~= Seq::<char>::empty());
    assert(escaped(Seq::<char>::empty()) == Seq::<char>::empty());
    assert(escaped(s) == escape_char(s[0]) + escaped(s.drop_first()));
    assert(escape_char(c) + Seq::<char>::empty() =~= escape_char(c));
}

/// Distinct texts give distinct Erlang binary literals, so distinct keys
/// address distinct objects.
pub proof fn law_binary_literal_injective(a: Seq<char>, b: Seq<char>)
    ensures
        binary_literal(a) == binary_literal(b) ==> a == b,
{
    if binary_literal(a) == binary_literal(b) {
        let la = binary_literal(a);
        assert(escaped(a) =~= la.subrange(3, la.len() - 3));
        assert(escaped(b) =~= la.subrange(3, la.len() - 3));
        lemma_unescape_escaped(a);
        lemma_unescape_escaped(b);
    }
}

/// The value a register's text stands for: without its leading `#`.
fn strip_mark(s: String) -> (r: String)
    ensures
        r@ == unmarked(s@),
{
    let chars = str_chars(s.as_str());
    if chars.len() > 0 && chars[0] == '#' {
        let rest = copy_range(chars.as_slice(), 1, chars.len());
        assert(rest@ =~= s@.drop_first());
        string_from_chars(rest.as_slice())
    } else {
        s
    }
}

proof fn lemma_first_deciding(ls: Seq<Seq<char>>, i: int)
    requires
        0 <= i <= ls.len(),
        forall|j: int| 0 <= j < i ==> !decides(#[trigger] ls[j]),
        i < ls.len() ==> decides(ls[i]),
    ensures
        first_deciding(ls) == i,
    decreases i,
{
    if i > 0 {
        let d = ls.drop_first();
        assert forall|j: int| 0 <= j < i - 1 implies !decides(#[trigger] d[j]) by {
            assert(d[j] == ls[j + 1]);
        }
        assert(!decides(ls[0]));
        lemma_first_deciding(d, i - 1);
    }
}

/// What a read's output means: the value of the first line marked as
/// carrying one (base64 of UTF-8 text, its leading `#` removed), no value
/// for the first line that is the none mark, or a refusal for the first
/// error line; lines before the first such line are skipped.
pub fn parse_read_output(out: &str) -> (r: Result<Option<String>, AntidoteError>)
    ensures
        read_reply_ok(out@, r),
{
    let chars = str_chars(out);
    let ls = split_lines(chars.as_slice());
    let value_mark_chars = str_chars("KVGAUNTLET_VALUE=");
    let none_mark_chars = str_chars("KVGAUNTLET_NONE");
    let error_mark_chars = str_chars("KVGAUNTLET_ERR=");
    let ghost all = lines(out@);
    let mut i: usize = 0;
    while i < ls.len()
        invariant
            i <= ls@.len(),
            views(ls@) == all,
            all == lines(out@),
            value_mark_chars@ == value_mark(),
            none_mark_chars@ == none_mark(),
            error_mark_chars@ == error_mark(),
            forall|j: int| 0 <= j < i ==> !decides(#[trigger] all[j]),
        decreases ls@.len() - i,
    {
        let line = &ls[i];
        assert(all[i as int] == line@);
        if chars_start_with(line.as_slice(), value_mark_chars.as_slice()) {
            proof {
                lemma_first_deciding(all, i as int);
            }
            let rest = copy_range(line.as_slice(), value_mark_chars.len(), line.len());
            assert(rest@ =~= line@.skip(value_mark().len() as int));
            let text = string_from_chars(rest.as_slice());
            match decode_base64(text.as_str()) {
                Err(e) => {
                    return Err(AntidoteError::InvalidBase64(e));
                },
                Ok(bytes) => {
                    match utf8_to_string(bytes) {
                        Ok(s) => {
                            return Ok(Some(strip_mark(s)));
                        },
                        Err(e) => {
                            return Err(AntidoteError::InvalidUtf8(e));
                        },
                    }
                },
            }
        }
        let trimmed = trim_chars(line.as_slice());
        if chars_equal(trimmed.as_slice(), none_mark_chars.as_slice()) {
            proof {
                lemma_first_deciding(all, i as int);
            }
            return Ok(None);
        }
        if chars_start_with(line.as_slice(), error_mark_chars.as_slice()) {
            proof {
                lemma_first_deciding(all, i as int);
            }
            return Err(AntidoteError::UnexpectedPayload(string_from_chars(line.as_slice())));
        }
        i = i + 1;
    }
    proof {
        lemma_first_deciding(all, i as int);
    }
    Err(AntidoteError::Unparseable)
}

fn push_str(out: &mut Vec<char>, s: &str)
    ensures
        final(out)@ == old(out)@ + s@,
{
    let mut chars = str_chars(s);
    out.append(&mut chars);
}

fn push_chars(out: &mut Vec<char>, s: &[char])
    ensures
        final(out)@ == old(out)@ + s@,
{
    let mut chars = copy_range(s, 0, s.len());
    assert(chars@ =~= s@);
    out.append(&mut chars);
}

/// Appends the Erlang escape of `s` to `out`.
fn push_escaped(out: &mut Vec<char>, s: &[char])
    ensures
        final(out)@ == old(out)@ + escaped(s@),
{
    let ghost start = out@;
    let mut i: usize = 0;
    assert(s@.skip(0) =~= s@);
    while i < s.len()
        invariant
            i <= s@.len(),
            start + escaped(s@) == out@ + escaped(s@.skip(i as int)),
        decreases s.len() - i,
    {
        let ghost before = out@;
        let c = s[i];
        assert(s@.skip(i as int).drop_first() =~= s@.skip(i + 1));
        if c == '\\' {
            out.push('\\');
            out.push('\\');
        } else if c == '"' {
            out.push('\\');
            out.push('"');
        } else if c == '\n' {
            out.push('\\');
            out.push('n');
        } else if c == '\r' {
            out.push('\\');
            out.push('r');
        } else if c == '\t' {
            out.push('\\');
            out.push('t');
        } else {
            out.push(c);
        }
        assert(out@ =~= before + escape_char(c));
        assert(before + escaped(s@.skip(i as int)) =~= out@ + escaped(s@.skip(i + 1)));
        i = i + 1;
    }
    assert(s@.skip(s.len() as int) =~= Seq::<char>::empty());
    assert(out@ + Seq::<char>::empty() =~= out@);
}

fn push_literal(out: &mut Vec<char>, s: &[char])
    ensures
        final(out)@ == old(out)@ + binary_literal(s@),
{
    let ghost start = out@;
    out.push('<');
    out.push('<');
    out.push('"');
    push_escaped(out, s);
    out.push('"');
    out.push('>');
    out.push('>');
    assert(out@ =~= start + binary_literal(s@));
}

impl AntidoteStore {
    /// The Erlang binary literal `<<"...">>` that stands for `input`, with
    /// backslash, double quote, line feed, carriage return and tab escaped.
    pub fn erlang_binary_literal(input: &str) -> (r: String)
        ensures
            r@ == binary_literal(input@),
    {
        let mut out: Vec<char> = Vec::new();
        let chars = str_chars(input);
        push_literal(&mut out, chars.as_slice());
        assert(out@ =~= binary_literal(input@));
        string_from_chars(out.as_slice())
    }

    /// The adapter for an endpoint: the endpoint names the container, the
    /// default container when it is empty or only white space.
    pub fn for_endpoint(endpoint: String) -> (r: Self)
        ensures
            r.container@ == (if trim(endpoint@).len() == 0 {
                default_container()
            } else {
                endpoint@
            }),
            r.bucket@ == store_bucket(),
    {
        let chars = str_chars(endpoint.as_str());
        let trimmed = trim_chars(chars.as_slice());
        let container = if trimmed.len() == 0 {
            "antidote1".to_owned()
        } else {
            endpoint
        };
        AntidoteStore { container, bucket: "kv_gauntlet".to_owned() }
    }

    /// What a ping of the container gives: nothing when it answered, else
    /// the container and its trimmed error output.
    pub fn ping_outcome(&self, success: bool, stderr: &[u8]) -> (r: Result<(), AntidoteError>)
        ensures
            success ==> r == Ok::<(), AntidoteError>(()),
            !success ==> (r matches Err(AntidoteError::ConnectFailed { container, detail })
                && container@ == self.container@ && detail@ == trim(lossy_utf8(stderr@))),
    {
        if success {
            Ok(())
        } else {
            let err = utf8_lossy(stderr);
            let chars = str_chars(err.as_str());
            let trimmed = trim_chars(chars.as_slice());
            Err(
                AntidoteError::ConnectFailed {
                    container: self.container.clone(),
                    detail: string_from_chars(trimmed.as_slice()),
                },
            )
        }
    }

    fn push_object_part(&self, out: &mut Vec<char>, key: &[char])
        ensures
            final(out)@ == old(out)@ + object_part(key@, self.bucket@),
    {
        let ghost start = out@;
        push_str(out, "Obj={");
        push_literal(out, key);
        push_str(out, ", antidote_crdt_register_lww, ");
        let bucket = str_chars(self.bucket.as_str());
        push_literal(out, bucket.as_slice());
        push_str(out, "}, {ok,Tx}=antidote:start_transaction(ignore,[{update_clock,true}]), ");
        assert(out@ =~= start + object_part(key@, self.bucket@));
    }

    /// The expression that writes `value` under `key`.
    pub fn put_expression(&self, key: &str, value: &str) -> (r: String)
        ensures
            r@ == put_text(key@, value@, self.bucket@),
    {
        let mut out: Vec<char> = Vec::new();
        let k = str_chars(key);
        self.push_object_part(&mut out, k.as_slice());
        push_str(&mut out, "ok=antidote:update_objects([{Obj, assign, ");
        let mut v: Vec<char> = Vec::new();
        v.push('#');
        push_str(&mut v, value);
        assert(v@ =~= stored_form(value@));
        push_literal(&mut out, v.as_slice());
        push_str(&mut out, "}], Tx), {ok,_}=antidote:commit_transaction(Tx).");
        assert(out@ =~= put_text(key@, value@, self.bucket@));
        string_from_chars(out.as_slice())
    }

    /// The expression that reads `key` and prints one marked line.
    pub fn get_expression(&self, key: &str) -> (r: String)
        ensures
            r@ == get_text(key@, self.bucket@),
    {
        let mut out: Vec<char> = Vec::new();
        let k = str_chars(key);
        self.push_object_part(&mut out, k.as_slice());
        push_str(&mut out, "Read=antidote:read_objects([Obj], Tx), {ok,_}=antidote:commit_transaction(Tx), case Read of {ok,[<<>>]} -> io:format(\"KVGAUNTLET_NONE~n\", []); {ok,[V]} -> io:format(\"KVGAUNTLET_VALUE=~s~n\", [binary_to_list(base64:encode(V))]); Other -> io:format(\"KVGAUNTLET_ERR=~p~n\", [Other]) end.");
        assert(out@ =~= get_text(key@, self.bucket@));
        string_from_chars(out.as_slice())
    }
}

} // verus!
