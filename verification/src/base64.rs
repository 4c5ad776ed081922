//! Decoding of base64 text, as the AntidoteDB adapter receives stored
//! values, and the standard encoding that it inverts.

use vstd::prelude::*;
use vstd::utf8::encode_utf8;
use crate::text::{str_chars, string_from_chars, trim, trim_chars};

verus! {

/// Why a base64 text was refused.
#[derive(Debug, Clone, Copy, PartialEq, Eq, Structural)]
pub enum Base64Error {
    /// The trimmed text is not empty and its length is not a multiple of four.
    InvalidLength,
    /// A byte is neither in the base64 alphabet nor the padding `=`.
    InvalidCharacter,
}

/// The padding byte `=`.
pub open spec fn is_pad(b: u8) -> bool {
    b == 61
}

/// The six-bit value of a byte of the standard base64 alphabet
/// (`A`-`Z`, `a`-`z`, `0`-`9`, `+`, `/`), or `None`.
pub open spec fn sextet(b: u8) -> Option<int> {
    if 65 <= b <= 90 {
        Some(b - 65)
    } else if 97 <= b <= 122 {
        Some(b - 71)
    } else if 48 <= b <= 57 {
        Some(b + 4)
    } else if b == 43 {
        Some(62)
    } else if b == 47 {
        Some(63)
    } else {
        None
    }
}

/// Whether a byte may stand in a group: padding or an alphabet byte.
pub open spec fn group_byte_ok(b: u8) -> bool {
    is_pad(b) || sextet(b) is Some
}

/// The value a byte contributes to its group; padding counts as zero.
pub open spec fn group_value(b: u8) -> int {
    if is_pad(b) {
        0
    } else {
        sextet(b)->0
    }
}

/// 1 for a padding byte, else 0.
pub open spec fn pad_count(b: u8) -> int {
    if is_pad(b) {
        1
    } else {
        0
    }
}

/// The 24-bit number that four group bytes stand for.
pub open spec fn group_number(b0: u8, b1: u8, b2: u8, b3: u8) -> int {
    group_value(b0) * 262144 + group_value(b1) * 4096 + group_value(b2) * 64 + group_value(b3)
}

/// The bytes that one group of four decodes to, or `None` when a byte is
/// outside the alphabet. Every `=` in the group counts as padding: the first
/// byte is always produced, the second unless two or more `=` stand in the
/// group, the third unless one or more does.
#[verifier::opaque]
pub open spec fn decode_group(b0: u8, b1: u8, b2: u8, b3: u8) -> Option<Seq<u8>> {
    if group_byte_ok(b0) && group_byte_ok(b1) && group_byte_ok(b2) && group_byte_ok(b3) {
        let n = group_number(b0, b1, b2, b3);
        let pad = pad_count(b0) + pad_count(b1) + pad_count(b2) + pad_count(b3);
        let first = seq![(n / 65536) as u8];
        let second = if pad < 2 {
            seq![((n / 256) % 256) as u8]
        } else {
            Seq::<u8>::empty()
        };
        let third = if pad < 1 {
            seq![(n % 256) as u8]
        } else {
            Seq::<u8>::empty()
        };
        Some(first + second + third)
    } else {
        None
    }
}

/// The concatenated decoding of consecutive groups of four bytes.
pub open spec fn decode_groups(s: Seq<u8>) -> Option<Seq<u8>>
    decreases s.len(),
{
    if s.len() < 4 {
        Some(Seq::<u8>::empty())
    } else {
        match (decode_group(s[0], s[1], s[2], s[3]), decode_groups(s.skip(4))) {
            (Some(a), Some(b)) => Some(a + b),
            _ => None,
        }
    }
}

/// What decoding a byte text gives: empty text decodes to nothing, a length
/// that is not a multiple of four is refused, then every group is decoded.
pub open spec fn spec_decode(s: Seq<u8>) -> Result<Seq<u8>, Base64Error> {
    if s.len() == 0 {
        Ok(Seq::<u8>::empty())
    } else if s.len() % 4 != 0 {
        Err(Base64Error::InvalidLength)
    } else {
        match decode_groups(s) {
            Some(out) => Ok(out),
            None => Err(Base64Error::InvalidCharacter),
        }
    }
}

/// `out` followed by what `rest` holds, if it holds anything.
pub open spec fn prepend(out: Seq<u8>, rest: Option<Seq<u8>>) -> Option<Seq<u8>> {
    match rest {
        Some(r) => Some(out + r),
        None => None,
    }
}

fn sextet_of(b: u8) -> (r: Option<u32>)
    ensures
        match r {
            Some(v) => sextet(b) == Some(v as int) && v < 64,
            None => sextet(b) is None,
        },
{
    if 65 <= b && b <= 90 {
        Some((b - 65) as u32)
    } else if 97 <= b && b <= 122 {
        Some((b - 71) as u32)
    } else if 48 <= b && b <= 57 {
        Some((b + 4) as u32)
    } else if b == 43 {
        Some(62)
    } else if b == 47 {
        Some(63)
    } else {
        None
    }
}

/// Value and padding count of one group byte, or `None` outside the alphabet.
fn group_byte(b: u8) -> (r: Option<(u32, u32)>)
    ensures
        match r {
            Some((v, p)) => group_byte_ok(b) && v == group_value(b) && p == pad_count(b) && v
                < 64,
            None => !group_byte_ok(b),
        },
{
    if b == 61 {
        Some((0, 1))
    } else {
        match sextet_of(b) {
            Some(v) => Some((v, 0)),
            None => None,
        }
    }
}

/// Appends the decoding of one group to `out`; false when the group holds a
/// byte outside the alphabet, in which case `out` is unchanged.
fn decode_group_into(out: &mut Vec<u8>, b0: u8, b1: u8, b2: u8, b3: u8) -> (ok: bool)
    ensures
        match decode_group(b0, b1, b2, b3) {
            Some(o) => ok && final(out)@ == old(out)@ + o,
            None => !ok && final(out)@ == old(out)@,
        },
{
    reveal(decode_group);
    let g0 = group_byte(b0);
    let g1 = group_byte(b1);
    let g2 = group_byte(b2);
    let g3 = group_byte(b3);
    match (g0, g1, g2, g3) {
        (Some((v0, p0)), Some((v1, p1)), Some((v2, p2)), Some((v3, p3))) => {
            let n: u32 = v0 * 262144 + v1 * 4096 + v2 * 64 + v3;
            let pad: u32 = p0 + p1 + p2 + p3;
            let ghost before = out@;
            out.push((n / 65536) as u8);
            if pad < 2 {
                out.push(((n / 256) % 256) as u8);
            }
            if pad < 1 {
                out.push((n % 256) as u8);
            }
            assert(out@ =~= before + decode_group(b0, b1, b2, b3)->0);
            true
        },
        _ => false,
    }
}

/// Decodes base64 bytes. Empty input gives no bytes; otherwise the length
/// must be a multiple of four and every byte an alphabet byte or `=`.
pub fn decode_base64_bytes(bytes: &[u8]) -> (r: Result<Vec<u8>, Base64Error>)
    ensures
        match r {
            Ok(v) => spec_decode(bytes@) == Ok::<Seq<u8>, Base64Error>(v@),
            Err(e) => spec_decode(bytes@) == Err::<Seq<u8>, Base64Error>(e),
        },
{
    let n = bytes.len();
    if n == 0 {
        return Ok(Vec::new());
    }
    if n % 4 != 0 {
        return Err(Base64Error::InvalidLength);
    }
    let mut out: Vec<u8> = Vec::new();
    let mut i: usize = 0;
    assert(bytes@.skip(0) =~= bytes@);
    while i < n
        invariant
            n == bytes@.len(),
            n % 4 == 0,
            i % 4 == 0,
            i <= n,
            decode_groups(bytes@) == prepend(out@, decode_groups(bytes@.skip(i as int))),
        decreases n - i,
    {
        let ghost rest = bytes@.skip(i as int);
        let ghost before = out@;
        assert(rest.skip(4) =~= bytes@.skip(i + 4));
        assert(rest[0] == bytes@[i as int] && rest[1] == bytes@[i + 1] && rest[2] == bytes@[i
            + 2] && rest[3] == bytes@[i + 3]);
        let ok = decode_group_into(&mut out, bytes[i], bytes[i + 1], bytes[i + 2], bytes[i + 3]);
        if !ok {
            return Err(Base64Error::InvalidCharacter);
        }
        proof {
            let g = decode_group(rest[0], rest[1], rest[2], rest[3])->0;
            match decode_groups(bytes@.skip(i + 4)) {
                Some(t) => {
                    assert(before + (g + t) =~= (before + g) + t);
                },
                None => {},
            }
        }
        i = i + 4;
    }
    assert(bytes@.skip(n as int).len() == 0);
    assert(out@ + Seq::<u8>::empty() =~= out@);
    Ok(out)
}

/// The alphabet byte that stands for a six-bit value.
pub open spec fn sextet_byte(v: int) -> u8 {
    if v < 26 {
        (v + 65) as u8
    } else if v < 52 {
        (v + 71) as u8
    } else if v < 62 {
        (v - 4) as u8
    } else if v == 62 {
        43
    } else {
        47
    }
}

/// The 24-bit number that one to three bytes stand for, missing bytes
/// counting as zero.
pub open spec fn triple_number(d: Seq<u8>) -> int {
    let b1: int = if d.len() > 1 { d[1] as int } else { 0 };
    let b2: int = if d.len() > 2 { d[2] as int } else { 0 };
    d[0] * 65536 + b1 * 256 + b2
}

/// Standard (RFC 4648) base64 encoding of one to three bytes, padded with
/// `=` to four bytes.
#[verifier::opaque]
pub open spec fn encode_group(d: Seq<u8>) -> Seq<u8> {
    let n = triple_number(d);
    seq![
        sextet_byte(n / 262144),
        sextet_byte((n / 4096) % 64),
        if d.len() > 1 { sextet_byte((n / 64) % 64) } else { 61u8 },
        if d.len() > 2 { sextet_byte(n % 64) } else { 61u8 },
    ]
}

/// Standard (RFC 4648) base64 encoding with padding.
pub open spec fn spec_encode(d: Seq<u8>) -> Seq<u8>
    decreases d.len(),
{
    if d.len() == 0 {
        Seq::<u8>::empty()
    } else if d.len() <= 3 {
        encode_group(d)
    } else {
        encode_group(d.take(3)) + spec_encode(d.skip(3))
    }
}

proof fn lemma_sextet_byte(v: int)
    requires
        0 <= v < 64,
    ensures
        sextet(sextet_byte(v)) == Some(v),
        !is_pad(sextet_byte(v)),
{
}

proof fn lemma_triple_arith(b0: u32, b1: u32, b2: u32)
    by (bit_vector)
    requires
        b0 < 256,
        b1 < 256,
        b2 < 256,
    ensures
        (b0 * 65536 + b1 * 256 + b2) / 262144 < 64,
        (b0 * 65536 + b1 * 256 + b2) / 262144 * 262144 + ((b0 * 65536 + b1 * 256 + b2) / 4096)
            % 64 * 4096 + ((b0 * 65536 + b1 * 256 + b2) / 64) % 64 * 64 + (b0 * 65536 + b1
            * 256 + b2) % 64 == b0 * 65536 + b1 * 256 + b2,
        (b0 * 65536 + b1 * 256 + b2) / 65536 == b0,
        ((b0 * 65536 + b1 * 256 + b2) / 256) % 256 == b1,
        (b0 * 65536 + b1 * 256 + b2) % 256 == b2,
        b2 == 0 ==> (b0 * 65536 + b1 * 256 + b2) % 64 == 0,
        b1 == 0 && b2 == 0 ==> ((b0 * 65536 + b1 * 256 + b2) / 64) % 64 == 0,
{
}

proof fn lemma_decode_encode_group(d: Seq<u8>)
    requires
        1 <= d.len() <= 3,
    ensures
        ({
            let e = encode_group(d);
            decode_group(e[0], e[1], e[2], e[3]) == Some(d)
        }),
{
    reveal(decode_group);
    reveal(encode_group);
    let b0 = d[0] as u32;
    let b1: u32 = if d.len() > 1 { d[1] as u32 } else { 0 };
    let b2: u32 = if d.len() > 2 { d[2] as u32 } else { 0 };
    lemma_triple_arith(b0, b1, b2);
    let n = triple_number(d);
    assert(n == b0 * 65536 + b1 * 256 + b2);
    lemma_sextet_byte(n / 262144);
    lemma_sextet_byte((n / 4096) % 64);
    lemma_sextet_byte((n / 64) % 64);
    lemma_sextet_byte(n % 64);
    let e = encode_group(d);
    assert(group_number(e[0], e[1], e[2], e[3]) == n);
    let o = decode_group(e[0], e[1], e[2], e[3])->0;
    assert(o =~= d);
}

proof fn lemma_encode_len(d: Seq<u8>)
    ensures
        spec_encode(d).len() % 4 == 0,
        spec_encode(d).len() == 0 <==> d.len() == 0,
    decreases d.len(),
{
    reveal(encode_group);
    if d.len() > 3 {
        lemma_encode_len(d.skip(3));
    }
}

proof fn lemma_decode_groups_encode(d: Seq<u8>)
    ensures
        decode_groups(spec_encode(d)) == Some(d),
    decreases d.len(),
{
    reveal(encode_group);
    let e = spec_encode(d);
    if d.len() == 0 {
    } else if d.len() <= 3 {
        lemma_decode_encode_group(d);
        assert(e.len() == 4);
        assert(e.skip(4).len() == 0);
        assert(decode_groups(e.skip(4)) == Some(Seq::<u8>::empty()));
        assert(d + Seq::<u8>::empty() =~= d);
    } else {
        let head = d.take(3);
        let g = encode_group(head);
        let t = spec_encode(d.skip(3));
        assert(g.len() == 4);
        assert(e == g + t);
        lemma_decode_encode_group(head);
        lemma_decode_groups_encode(d.skip(3));
        assert(e[0] == g[0] && e[1] == g[1] && e[2] == g[2] && e[3] == g[3]);
        assert(e.skip(4) =~= t);
        assert(head + d.skip(3) =~= d);
    }
}

/// Decoding inverts standard base64 encoding: the bytes that the store
/// encoded are the bytes that come back.
pub proof fn law_decode_inverts_encode(d: Seq<u8>)
    ensures
        spec_decode(spec_encode(d)) == Ok::<Seq<u8>, Base64Error>(d),
{
    lemma_encode_len(d);
    lemma_decode_groups_encode(d);
}

/// Every byte of a standard encoding is an alphabet byte or `=`, all of
/// them between `+` and `z`.
pub proof fn lemma_encode_alphabet(d: Seq<u8>)
    ensures
        forall|i: int|
            0 <= i < spec_encode(d).len() ==> group_byte_ok(#[trigger] spec_encode(d)[i]) && 43
                <= spec_encode(d)[i] <= 122,
    decreases d.len(),
{
    reveal(encode_group);
    if d.len() > 0 {
        let head = if d.len() <= 3 {
            d
        } else {
            d.take(3)
        };
        let b0 = head[0] as u32;
        let b1: u32 = if head.len() > 1 { head[1] as u32 } else { 0 };
        let b2: u32 = if head.len() > 2 { head[2] as u32 } else { 0 };
        lemma_triple_arith(b0, b1, b2);
        let n = triple_number(head);
        assert(n == b0 * 65536 + b1 * 256 + b2);
        lemma_sextet_byte(n / 262144);
        lemma_sextet_byte((n / 4096) % 64);
        lemma_sextet_byte((n / 64) % 64);
        lemma_sextet_byte(n % 64);
        let g = encode_group(head);
        assert(forall|i: int| 0 <= i < 4 ==> group_byte_ok(#[trigger] g[i]) && 43 <= g[i] <= 122);
        if d.len() > 3 {
            lemma_encode_alphabet(d.skip(3));
            let e = spec_encode(d);
            assert(e == g + spec_encode(d.skip(3)));
            assert forall|i: int| 0 <= i < e.len() implies group_byte_ok(#[trigger] e[i]) && 43
                <= e[i] <= 122 by {
                if i >= 4 {
                    assert(e[i] == spec_encode(d.skip(3))[i - 4]);
                } else {
                    assert(e[i] == g[i]);
                }
            }
        }
    }
}

/// Decodes a base64 text after removing its leading and trailing white
/// space; the text is read as its UTF-8 bytes.
pub fn decode_base64(input: &str) -> (r: Result<Vec<u8>, Base64Error>)
    ensures
        match r {
            Ok(v) => spec_decode(encode_utf8(trim(input@))) == Ok::<Seq<u8>, Base64Error>(v@),
            Err(e) => spec_decode(encode_utf8(trim(input@))) == Err::<Seq<u8>, Base64Error>(e),
        },
{
    let chars = str_chars(input);
    let trimmed = trim_chars(chars.as_slice());
    let text = string_from_chars(trimmed.as_slice());
    let bytes = text.as_str().as_bytes();
    decode_base64_bytes(bytes)
}

} // verus!
