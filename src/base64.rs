//! Base64 over the standard alphabet `A-Z a-z 0-9 + /`, with `=` padding.
use vstd::prelude::*;
use vstd::math::min;
use vstd::string::StringSliceAdditionalSpecFns;
use vstd::utf8::{encode_utf8, is_ascii_chars, is_ascii_chars_encode_utf8};

verus! {

/// The only way encoding can fail: the encoded length does not fit in `usize`.
#[derive(Debug, Clone, Copy, PartialEq, Eq, Structural)]
pub enum Base64EncodeError {
    InputTooLarge,
}

/// The character of the alphabet that stands for the 6-bit value `v`.
pub open spec fn sextet_byte(v: int) -> u8 {
    if v < 26 {
        (v + 65) as u8
    } else if v < 52 {
        (v - 26 + 97) as u8
    } else if v < 62 {
        (v - 52 + 48) as u8
    } else if v == 62 {
        43u8
    } else {
        47u8
    }
}

/// The four characters that encode a group of one to three bytes; missing
/// bytes count as zero and their characters become `=`.
pub open spec fn encode_group(g: Seq<u8>) -> Seq<u8> {
    let b0 = g[0] as int;
    let b1 = if g.len() > 1 { g[1] as int } else { 0 };
    let b2 = if g.len() > 2 { g[2] as int } else { 0 };
    let c0 = sextet_byte(b0 / 4);
    let c1 = sextet_byte((b0 % 4) * 16 + b1 / 16);
    let c2 = sextet_byte((b1 % 16) * 4 + b2 / 64);
    let c3 = sextet_byte(b2 % 64);
    if g.len() >= 3 {
        seq![c0, c1, c2, c3]
    } else if g.len() == 2 {
        seq![c0, c1, c2, 61u8]
    } else {
        seq![c0, c1, 61u8, 61u8]
    }
}

/// Where the last group of a `len`-byte input starts.
pub open spec fn last_group_start(len: int) -> int {
    ((len - 1) / 3) * 3
}

/// The base64 text of `b`, as bytes.
pub open spec fn encode_spec(b: Seq<u8>) -> Seq<u8>
    decreases b.len(),
{
    if b.len() == 0 {
        seq![]
    } else {
        let k = last_group_start(b.len() as int);
        encode_spec(b.take(k)) + encode_group(b.skip(k))
    }
}

/// Length of the encoding of `len` bytes.
pub open spec fn encoded_len(len: int) -> int {
    ((len + 2) / 3) * 4
}

/// The characters of an ASCII byte sequence.
pub open spec fn ascii_chars(b: Seq<u8>) -> Seq<char> {
    b.map_values(|c: u8| c as char)
}

/// Relies on `String::from_utf8`: a byte sequence that is all ASCII is valid
/// UTF-8, and each byte becomes the character of the same value.
#[verifier::external_body]
fn ascii_string(bytes: Vec<u8>) -> (r: String)
    requires
        forall|i: int| 0 <= i < bytes@.len() ==> bytes@[i] < 128,
    ensures
        r@ == ascii_chars(bytes@),
{
    String::from_utf8(bytes).unwrap()
}

fn sextet_to_byte(v: u8) -> (r: u8)
    requires
        v < 64,
    ensures
        r == sextet_byte(v as int),
        r < 128,
{
    if v < 26 {
        v + 65
    } else if v < 52 {
        v - 26 + 97
    } else if v < 62 {
        v - 52 + 48
    } else if v == 62 {
        43
    } else {
        47
    }
}

proof fn lemma_sextets(b0: u8, b1: u8, b2: u8)
    ensures
        b0 >> 2u8 == b0 / 4,
        ((b0 & 3u8) << 4u8) | (b1 >> 4u8) == (b0 % 4) * 16 + b1 / 16,
        ((b1 & 15u8) << 2u8) | (b2 >> 6u8) == (b1 % 16) * 4 + b2 / 64,
        b2 & 63u8 == b2 % 64,
        b0 >> 2u8 < 64,
        ((b0 & 3u8) << 4u8) | (b1 >> 4u8) < 64,
        ((b1 & 15u8) << 2u8) | (b2 >> 6u8) < 64,
{
    assert(b0 >> 2u8 == b0 / 4) by (bit_vector);
    assert(((b0 & 3u8) << 4u8) | (b1 >> 4u8) == (b0 % 4) * 16 + b1 / 16) by (bit_vector);
    assert(((b1 & 15u8) << 2u8) | (b2 >> 6u8) == (b1 % 16) * 4 + b2 / 64) by (bit_vector);
    assert(b2 & 63u8 == b2 % 64) by (bit_vector);
    assert(b0 >> 2u8 < 64) by (bit_vector);
    assert(((b0 & 3u8) << 4u8) | (b1 >> 4u8) < 64) by (bit_vector);
    assert(((b1 & 15u8) << 2u8) | (b2 >> 6u8) < 64) by (bit_vector);
}

proof fn lemma_encode_fits(len: int)
    requires
        0 <= len,
        len > usize::MAX - 2,
    ensures
        encoded_len(len) > usize::MAX,
{
    assert(encoded_len(len) > usize::MAX) by (nonlinear_arith)
        requires
            len + 2 > usize::MAX,
            usize::MAX >= 3,
    {
    }
}

/// Encodes `input` as base64 text, given as its ASCII bytes.
pub fn encode_bytes(input: &[u8]) -> (r: Result<Vec<u8>, Base64EncodeError>)
    ensures
        encoded_len(input@.len() as int) <= usize::MAX ==> r is Ok && r->Ok_0@ == encode_spec(
            input@,
        ),
        r is Ok ==> forall|i: int| 0 <= i < r->Ok_0@.len() ==> r->Ok_0@[i] < 128,
        encoded_len(input@.len() as int) > usize::MAX ==> r == Err::<Vec<u8>, Base64EncodeError>(
            Base64EncodeError::InputTooLarge,
        ),
{
    let len = input.len();
    if len > usize::MAX - 2 {
        proof {
            lemma_encode_fits(len as int);
        }
        return Err(Base64EncodeError::InputTooLarge);
    }
    let groups = (len + 2) / 3;
    if groups > usize::MAX / 4 {
        return Err(Base64EncodeError::InputTooLarge);
    }
    let mut out: Vec<u8> = Vec::new();
    let mut i: usize = 0;
    while i < len
        invariant
            len == input@.len(),
            i <= len,
            i % 3 == 0 || i == len,
            out@ == encode_spec(input@.take(i as int)),
            forall|j: int| 0 <= j < out@.len() ==> out@[j] < 128,
        decreases len - i,
    {
        let n: usize = if len - i >= 3 { 3 } else { len - i };
        let b0 = input[i];
        let b1: u8 = if n > 1 { input[i + 1] } else { 0 };
        let b2: u8 = if n > 2 { input[i + 2] } else { 0 };
        proof {
            lemma_sextets(b0, b1, b2);
        }
        let c0 = sextet_to_byte(b0 >> 2);
        let c1 = sextet_to_byte(((b0 & 3) << 4) | (b1 >> 4));
        let c2 = sextet_to_byte(((b1 & 15) << 2) | (b2 >> 6));
        let c3 = sextet_to_byte(b2 & 63);
        let ghost before = out@;
        out.push(c0);
        out.push(c1);
        if n == 3 {
            out.push(c2);
            out.push(c3);
        } else if n == 2 {
            out.push(c2);
            out.push(61);
        } else {
            out.push(61);
            out.push(61);
        }
        proof {
            let t = input@.take(i + n);
            assert(last_group_start(t.len() as int) == i);
            assert(t.take(i as int) =~= input@.take(i as int));
            assert(t.skip(i as int) =~= input@.subrange(i as int, i + n));
            assert(out@ =~= before + encode_group(t.skip(i as int)));
        }
        i = i + n;
    }
    proof {
        assert(input@.take(i as int) =~= input@);
    }
    Ok(out)
}

/// Encodes `input` as base64 text.
pub fn encode(input: &[u8]) -> (r: Result<String, Base64EncodeError>)
    ensures
        encoded_len(input@.len() as int) <= usize::MAX ==> r is Ok && r->Ok_0@ == ascii_chars(
            encode_spec(input@),
        ),
        encoded_len(input@.len() as int) > usize::MAX ==> r == Err::<String, Base64EncodeError>(
            Base64EncodeError::InputTooLarge,
        ),
{
    match encode_bytes(input) {
        Ok(bytes) => Ok(ascii_string(bytes)),
        Err(e) => Err(e),
    }
}

/// Why base64 text was rejected.
#[derive(Debug, Clone, Copy, PartialEq, Eq, Structural)]
pub enum Base64DecodeError {
    /// The text's length is not a multiple of four.
    InvalidLength,
    /// A byte that is neither in the alphabet nor `=`.
    InvalidCharacter(char),
    /// `=` where it cannot stand.
    InvalidPadding,
}

/// The 6-bit value of an alphabet character; `None` for any other byte.
pub open spec fn sextet_value(c: u8) -> Option<int> {
    if 65 <= c <= 90 {
        Some(c - 65)
    } else if 97 <= c <= 122 {
        Some(c - 97 + 26)
    } else if 48 <= c <= 57 {
        Some(c - 48 + 52)
    } else if c == 43 {
        Some(62)
    } else if c == 47 {
        Some(63)
    } else {
        None
    }
}

/// A byte of base64 text: an alphabet character or the padding `=`.
pub open spec fn is_base64_byte(c: u8) -> bool {
    sextet_value(c) is Some || c == 61
}

/// The bytes that the four characters `g` stand for, where `is_last` says
/// whether `g` is the text's final group (the only one that may be padded).
pub open spec fn decode_group(g: Seq<u8>, is_last: bool) -> Result<Seq<u8>, Base64DecodeError> {
    if !is_base64_byte(g[0]) {
        Err(Base64DecodeError::InvalidCharacter(g[0] as char))
    } else if !is_base64_byte(g[1]) {
        Err(Base64DecodeError::InvalidCharacter(g[1] as char))
    } else if !is_base64_byte(g[2]) {
        Err(Base64DecodeError::InvalidCharacter(g[2] as char))
    } else if !is_base64_byte(g[3]) {
        Err(Base64DecodeError::InvalidCharacter(g[3] as char))
    } else if g[0] == 61 || g[1] == 61 {
        Err(Base64DecodeError::InvalidPadding)
    } else {
        let v0 = sextet_value(g[0])->0;
        let v1 = sextet_value(g[1])->0;
        let v2 = if g[2] == 61 { 0 } else { sextet_value(g[2])->0 };
        let v3 = if g[3] == 61 { 0 } else { sextet_value(g[3])->0 };
        let x0 = (v0 * 4 + v1 / 16) as u8;
        let x1 = ((v1 % 16) * 16 + v2 / 4) as u8;
        let x2 = ((v2 % 4) * 64 + v3) as u8;
        if g[2] != 61 && g[3] != 61 {
            Ok(seq![x0, x1, x2])
        } else if g[2] == 61 && g[3] != 61 {
            Err(Base64DecodeError::InvalidPadding)
        } else if !is_last {
            Err(Base64DecodeError::InvalidPadding)
        } else if g[2] != 61 {
            Ok(seq![x0, x1])
        } else {
            Ok(seq![x0])
        }
    }
}

/// The result of decoding the first `k` groups of `s`, in order, stopping at
/// the first error.
pub open spec fn decode_groups(s: Seq<u8>, k: nat) -> Result<Seq<u8>, Base64DecodeError>
    decreases k,
{
    if k == 0 {
        Ok(seq![])
    } else {
        match decode_groups(s, (k - 1) as nat) {
            Err(e) => Err(e),
            Ok(out) => match decode_group(
                s.subrange(4 * (k - 1), 4 * k as int),
                4 * k == s.len(),
            ) {
                Err(e) => Err(e),
                Ok(g) => Ok(out + g),
            },
        }
    }
}

/// What decoding the base64 text `s` (as bytes) gives.
pub open spec fn decode_spec(s: Seq<u8>) -> Result<Seq<u8>, Base64DecodeError> {
    if s.len() % 4 != 0 {
        Err(Base64DecodeError::InvalidLength)
    } else {
        decode_groups(s, s.len() / 4)
    }
}

fn sextet_of(c: u8) -> (r: Result<Option<u8>, Base64DecodeError>)
    ensures
        !is_base64_byte(c) ==> r == Err::<Option<u8>, Base64DecodeError>(
            Base64DecodeError::InvalidCharacter(c as char),
        ),
        c == 61 ==> r == Ok::<Option<u8>, Base64DecodeError>(None),
        sextet_value(c) is Some ==> r is Ok && r->Ok_0 is Some && r->Ok_0->0 == sextet_value(c)->0,
        r is Ok && r->Ok_0 is Some ==> r->Ok_0->0 < 64,
{
    if 65 <= c && c <= 90 {
        Ok(Some(c - 65))
    } else if 97 <= c && c <= 122 {
        Ok(Some(c - 97 + 26))
    } else if 48 <= c && c <= 57 {
        Ok(Some(c - 48 + 52))
    } else if c == 43 {
        Ok(Some(62))
    } else if c == 47 {
        Ok(Some(63))
    } else if c == 61 {
        Ok(None)
    } else {
        Err(Base64DecodeError::InvalidCharacter(c as char))
    }
}

proof fn lemma_pack(v0: u8, v1: u8, v2: u8, v3: u8)
    requires
        v0 < 64,
        v1 < 64,
        v2 < 64,
        v3 < 64,
    ensures
        (v0 << 2u8) | (v1 >> 4u8) == v0 * 4 + v1 / 16,
        (v1 << 4u8) | (v2 >> 2u8) == (v1 % 16) * 16 + v2 / 4,
        (v2 << 6u8) | v3 == (v2 % 4) * 64 + v3,
{
    assert((v0 << 2u8) | (v1 >> 4u8) == v0 * 4 + v1 / 16) by (bit_vector)
        requires
            v0 < 64,
            v1 < 64,
    ;
    assert((v1 << 4u8) | (v2 >> 2u8) == (v1 % 16) * 16 + v2 / 4) by (bit_vector)
        requires
            v1 < 64,
            v2 < 64,
    ;
    assert((v2 << 6u8) | v3 == (v2 % 4) * 64 + v3) by (bit_vector)
        requires
            v2 < 64,
            v3 < 64,
    ;
}

/// Decodes base64 text; the text is read byte by byte.
pub fn decode(input: &str) -> (r: Result<Vec<u8>, Base64DecodeError>)
    ensures
        match decode_spec(input.spec_bytes()) {
            Ok(b) => r is Ok && r->Ok_0@ == b,
            Err(e) => r == Err::<Vec<u8>, Base64DecodeError>(e),
        },
{
    let bytes = input.as_bytes();
    decode_bytes(bytes)
}

proof fn lemma_decode_groups_err(s: Seq<u8>, k: nat, m: nat)
    requires
        k <= m,
        decode_groups(s, k) is Err,
    ensures
        decode_groups(s, m) == decode_groups(s, k),
    decreases m - k,
{
    if k < m {
        lemma_decode_groups_err(s, k, (m - 1) as nat);
    }
}

/// Decodes the group `bytes[i..i + 4]` onto the end of `out`.
fn decode_group_into(bytes: &[u8], i: usize, is_last: bool, out: &mut Vec<u8>) -> (r: Result<
    (),
    Base64DecodeError,
>)
    requires
        i + 4 <= bytes@.len(),
    ensures
        match decode_group(bytes@.subrange(i as int, i + 4), is_last) {
            Ok(x) => r is Ok && final(out)@ == old(out)@ + x,
            Err(e) => r == Err::<(), Base64DecodeError>(e),
        },
{
    let ghost g = bytes@.subrange(i as int, i + 4);
    assert(g[0] == bytes@[i as int] && g[1] == bytes@[i + 1] && g[2] == bytes@[i + 2] && g[3]
        == bytes@[i + 3]);
    let s0 = sextet_of(bytes[i]);
    let s0 = match s0 {
        Ok(v) => v,
        Err(e) => return Err(e),
    };
    let s1 = sextet_of(bytes[i + 1]);
    let s1 = match s1 {
        Ok(v) => v,
        Err(e) => return Err(e),
    };
    let s2 = sextet_of(bytes[i + 2]);
    let s2 = match s2 {
        Ok(v) => v,
        Err(e) => return Err(e),
    };
    let s3 = sextet_of(bytes[i + 3]);
    let s3 = match s3 {
        Ok(v) => v,
        Err(e) => return Err(e),
    };
    let v0 = match s0 {
        Some(v) => v,
        None => return Err(Base64DecodeError::InvalidPadding),
    };
    let v1 = match s1 {
        Some(v) => v,
        None => return Err(Base64DecodeError::InvalidPadding),
    };
    let ghost before = out@;
    match (s2, s3) {
        (Some(v2), Some(v3)) => {
            proof {
                lemma_pack(v0, v1, v2, v3);
            }
            out.push((v0 << 2) | (v1 >> 4));
            out.push((v1 << 4) | (v2 >> 2));
            out.push((v2 << 6) | v3);
            assert(out@.skip(before.len() as int) =~= seq![
                (v0 * 4 + v1 / 16) as u8,
                ((v1 % 16) * 16 + v2 / 4) as u8,
                ((v2 % 4) * 64 + v3) as u8,
            ]);
        },
        (Some(v2), None) => {
            if !is_last {
                return Err(Base64DecodeError::InvalidPadding);
            }
            proof {
                lemma_pack(v0, v1, v2, 0);
            }
            out.push((v0 << 2) | (v1 >> 4));
            out.push((v1 << 4) | (v2 >> 2));
            assert(out@.skip(before.len() as int) =~= seq![
                (v0 * 4 + v1 / 16) as u8,
                ((v1 % 16) * 16 + v2 / 4) as u8,
            ]);
        },
        (None, None) => {
            if !is_last {
                return Err(Base64DecodeError::InvalidPadding);
            }
            proof {
                lemma_pack(v0, v1, 0, 0);
            }
            out.push((v0 << 2) | (v1 >> 4));
            assert(out@.skip(before.len() as int) =~= seq![(v0 * 4 + v1 / 16) as u8]);
        },
        (None, Some(_)) => {
            return Err(Base64DecodeError::InvalidPadding);
        },
    }
    assert(decode_group(g, is_last) == Ok::<Seq<u8>, Base64DecodeError>(
        out@.skip(before.len() as int),
    ));
    assert(out@ =~= before + out@.skip(before.len() as int));
    Ok(())
}

/// Decodes base64 text given as bytes.
pub fn decode_bytes(bytes: &[u8]) -> (r: Result<Vec<u8>, Base64DecodeError>)
    ensures
        match decode_spec(bytes@) {
            Ok(b) => r is Ok && r->Ok_0@ == b,
            Err(e) => r == Err::<Vec<u8>, Base64DecodeError>(e),
        },
{
    let len = bytes.len();
    if len % 4 != 0 {
        return Err(Base64DecodeError::InvalidLength);
    }
    let groups = len / 4;
    let mut out: Vec<u8> = Vec::new();
    let mut k: usize = 0;
    while k < groups
        invariant
            len == bytes@.len(),
            len % 4 == 0,
            groups == len / 4,
            k <= groups,
            decode_groups(bytes@, k as nat) == Ok::<Seq<u8>, Base64DecodeError>(out@),
        decreases groups - k,
    {
        let is_last = k + 1 == groups;
        let r = decode_group_into(bytes, 4 * k, is_last, &mut out);
        if let Err(e) = r {
            proof {
                lemma_decode_groups_err(bytes@, (k + 1) as nat, groups as nat);
            }
            return Err(e);
        }
        k = k + 1;
    }
    Ok(out)
}

proof fn lemma_sextet_round_trip(v: int)
    requires
        0 <= v < 64,
    ensures
        sextet_value(sextet_byte(v)) == Some(v),
        sextet_byte(v) != 61,
        sextet_byte(v) < 128,
{
}

proof fn lemma_group_round_trip(t: Seq<u8>, is_last: bool)
    requires
        1 <= t.len() <= 3,
        t.len() == 3 || is_last,
    ensures
        decode_group(encode_group(t), is_last) == Ok::<Seq<u8>, Base64DecodeError>(t),
{
    let b0 = t[0] as int;
    let b1 = if t.len() > 1 { t[1] as int } else { 0 };
    let b2 = if t.len() > 2 { t[2] as int } else { 0 };
    let v0 = b0 / 4;
    let v1 = (b0 % 4) * 16 + b1 / 16;
    let v2 = (b1 % 16) * 4 + b2 / 64;
    let v3 = b2 % 64;
    lemma_sextet_round_trip(v0);
    lemma_sextet_round_trip(v1);
    lemma_sextet_round_trip(v2);
    lemma_sextet_round_trip(v3);
    assert(v0 * 4 + v1 / 16 == b0);
    assert((v1 % 16) * 16 + v2 / 4 == b1);
    assert((v2 % 4) * 64 + v3 == b2);
    let g = encode_group(t);
    if t.len() == 3 {
        assert(decode_group(g, is_last)->Ok_0 =~= t);
    } else if t.len() == 2 {
        assert(decode_group(g, is_last)->Ok_0 =~= t);
    } else {
        assert(decode_group(g, is_last)->Ok_0 =~= t);
    }
}

/// Number of groups in the encoding of `len` bytes.
pub open spec fn group_count(len: int) -> int {
    (len + 2) / 3
}

/// The shape of encoded text: four characters for each group of up to three
/// bytes, every one of them ASCII and a base64 byte.
pub proof fn lemma_encode_layout(b: Seq<u8>)
    ensures
        encode_spec(b).len() == 4 * group_count(b.len() as int),
        forall|i: int| 0 <= i < encode_spec(b).len() ==> #[trigger] encode_spec(b)[i] < 128,
        forall|i: int| 0 <= i < encode_spec(b).len() ==> is_base64_byte(#[trigger] encode_spec(b)[i]),
        forall|j: int|
            0 <= j < group_count(b.len() as int) ==> #[trigger] encode_spec(b).subrange(
                4 * j,
                4 * j + 4,
            ) == encode_group(b.subrange(3 * j, min(3 * j + 3, b.len() as int))),
    decreases b.len(),
{
    if b.len() > 0 {
        let n = b.len() as int;
        let k = last_group_start(n);
        let head = b.take(k);
        let t = b.skip(k);
        lemma_encode_layout(head);
        let eh = encode_spec(head);
        let e = encode_spec(b);
        let g = encode_group(t);
        assert(e == eh + g);
        assert(group_count(k) == group_count(n) - 1);
        let t0 = t[0] as int;
        let t1 = if t.len() > 1 { t[1] as int } else { 0 };
        let t2 = if t.len() > 2 { t[2] as int } else { 0 };
        lemma_sextet_round_trip(t0 / 4);
        lemma_sextet_round_trip((t0 % 4) * 16 + t1 / 16);
        lemma_sextet_round_trip((t1 % 16) * 4 + t2 / 64);
        lemma_sextet_round_trip(t2 % 64);
        assert forall|i: int| 0 <= i < e.len() implies #[trigger] e[i] < 128 && is_base64_byte(e[i]) by {
            if i < eh.len() {
                assert(e[i] == eh[i]);
            } else {
                assert(e[i] == g[i - eh.len()]);
            }
        }
        assert forall|j: int| 0 <= j < group_count(n) implies #[trigger] e.subrange(
            4 * j,
            4 * j + 4,
        ) == encode_group(b.subrange(3 * j, min(3 * j + 3, n))) by {
            if j < group_count(k) {
                assert(e.subrange(4 * j, 4 * j + 4) =~= eh.subrange(4 * j, 4 * j + 4));
                assert(head.subrange(3 * j, min(3 * j + 3, k)) =~= b.subrange(
                    3 * j,
                    min(3 * j + 3, n),
                ));
            } else {
                assert(e.subrange(4 * j, 4 * j + 4) =~= g);
                assert(t =~= b.subrange(3 * j, min(3 * j + 3, n)));
            }
        }
    }
}

proof fn lemma_decode_encoded_prefix(b: Seq<u8>, k: nat)
    requires
        k <= group_count(b.len() as int),
    ensures
        decode_groups(encode_spec(b), k) == Ok::<Seq<u8>, Base64DecodeError>(
            b.take(min(3 * k as int, b.len() as int)),
        ),
    decreases k,
{
    let n = b.len() as int;
    if k == 0 {
        assert(b.take(0) =~= seq![]);
    } else {
        let j = k - 1;
        lemma_decode_encoded_prefix(b, j as nat);
        lemma_encode_layout(b);
        let e = encode_spec(b);
        let t = b.subrange(3 * j, min(3 * j + 3, n));
        assert(e.subrange(4 * j, 4 * j + 4) == encode_group(t));
        lemma_group_round_trip(t, 4 * k == e.len());
        assert(b.take(min(3 * j, n)) + t =~= b.take(min(3 * k as int, n)));
    }
}

/// Decoding undoes encoding: the text that `encode` gives for `b` decodes
/// back to `b`.
pub proof fn lemma_round_trip(b: Seq<u8>)
    ensures
        decode_spec(encode_spec(b)) == Ok::<Seq<u8>, Base64DecodeError>(b),
{
    lemma_encode_layout(b);
    let n = b.len() as int;
    lemma_decode_encoded_prefix(b, group_count(n) as nat);
    assert(b.take(min(3 * group_count(n), n)) =~= b);
}

/// The round trip through text: whatever string holds the characters that
/// `encode` gives for `b`, `decode` reads `b` back from it.
pub proof fn lemma_text_round_trip(b: Seq<u8>, text: &str)
    requires
        text@ == ascii_chars(encode_spec(b)),
    ensures
        decode_spec(text.spec_bytes()) == Ok::<Seq<u8>, Base64DecodeError>(b),
{
    lemma_encode_layout(b);
    let e = encode_spec(b);
    assert(is_ascii_chars(text@));
    is_ascii_chars_encode_utf8(text@);
    assert(text.spec_bytes() =~= e);
    lemma_round_trip(b);
}

} // verus!
