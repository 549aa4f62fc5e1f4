//! Byte encodings used by the wire formats: lowercase hexadecimal (`hex`)
//! and standard padded base64 (`base64`).

use vstd::prelude::*;

use base64::Engine;

use crate::text::{is_ws, radix_char};

verus! {

#[verifier::external_type_specification]
#[verifier::external_body]
pub struct ExDecodeError(base64::DecodeError);

/// Lowercase hexadecimal, two digits per byte.
pub open spec fn hex_lower(b: Seq<u8>) -> Seq<char>
    decreases b.len(),
{
    if b.len() == 0 {
        seq![]
    } else {
        seq![radix_char(((b[0] as int) / 16) as int), radix_char(((b[0] as int) % 16) as int)] + hex_lower(
            b.drop_first(),
        )
    }
}

/// A value of the standard base64 alphabet (`A-Z a-z 0-9 + /`).
pub open spec fn b64_char(v: int) -> char {
    if v < 26 {
        (65 + v) as char
    } else if v < 52 {
        (71 + v) as char
    } else if v < 62 {
        (v - 4) as char
    } else if v == 62 {
        '+'
    } else {
        '/'
    }
}

/// Standard base64 with `=` padding: each group of three bytes becomes four
/// characters; a final group of one or two bytes is padded to four.
pub open spec fn base64_encode_spec(b: Seq<u8>) -> Seq<char>
    decreases b.len(),
{
    if b.len() == 0 {
        seq![]
    } else if b.len() == 1 {
        seq![b64_char((b[0] as int) / 4), b64_char(((b[0] as int) % 4) * 16), '=', '=']
    } else if b.len() == 2 {
        seq![
            b64_char((b[0] as int) / 4),
            b64_char(((b[0] as int) % 4) * 16 + (b[1] as int) / 16),
            b64_char(((b[1] as int) % 16) * 4),
            '=',
        ]
    } else {
        seq![
            b64_char((b[0] as int) / 4),
            b64_char(((b[0] as int) % 4) * 16 + (b[1] as int) / 16),
            b64_char(((b[1] as int) % 16) * 4 + (b[2] as int) / 64),
            b64_char((b[2] as int) % 64),
        ] + base64_encode_spec(b.skip(3))
    }
}

/// What `STANDARD.decode` accepts and returns for a text: it accepts
/// exactly the canonical padded encodings, and gives the bytes encoded
/// (`None` where it returns an error).
#[verifier::opaque]
pub open spec fn base64_decode_spec(text: Seq<char>) -> Option<Seq<u8>> {
    if exists|b: Seq<u8>| #[trigger] base64_encode_spec(b) == text {
        Some(choose|b: Seq<u8>| #[trigger] base64_encode_spec(b) == text)
    } else {
        None
    }
}

/// Decoding an encoding gives the bytes encoded.
pub proof fn lemma_base64_decode_encode(b: Seq<u8>)
    ensures
        base64_decode_spec(base64_encode_spec(b)) == Some(b),
{
    reveal(base64_decode_spec);
    let t = base64_encode_spec(b);
    assert(base64_encode_spec(b) == t);
    let c = choose|x: Seq<u8>| #[trigger] base64_encode_spec(x) == t;
    lemma_base64_encode_injective(c, b);
}

/// `hex::encode`: lowercase hexadecimal, two digits per byte, high nibble
/// first.
#[verifier::external_body]
fn hex_encode(bytes: &[u8]) -> (s: String)
    ensures
        s@ == hex_lower(bytes@),
{
    hex::encode(bytes)
}

/// `base64::engine::general_purpose::STANDARD.encode`: standard alphabet
/// with `=` padding.
#[verifier::external_body]
fn base64_encode(bytes: &[u8]) -> (s: String)
    ensures
        s@ == base64_encode_spec(bytes@),
{
    base64::engine::general_purpose::STANDARD.encode(bytes)
}

/// `base64::engine::general_purpose::STANDARD.decode`: the standard engine
/// (canonical padding, no trailing bits) succeeds exactly on the texts that
/// are the standard encoding of some bytes, and returns those bytes.
#[verifier::external_body]
fn base64_decode(text: &str) -> (r: Result<Vec<u8>, base64::DecodeError>)
    ensures
        r is Ok <==> exists|b: Seq<u8>| #[trigger] base64_encode_spec(b) == text@,
        r matches Ok(v) ==> base64_encode_spec(v@) == text@,
{
    base64::engine::general_purpose::STANDARD.decode(text)
}

/// `Display` of a base64 decode error; nothing is stated of the text.
#[verifier::external_body]
fn decode_error_text(e: &base64::DecodeError) -> String {
    format!("{e}")
}

/// Hex encoding of bytes.
pub fn to_hex(bytes: &[u8]) -> (s: String)
    ensures
        s@ == hex_lower(bytes@),
{
    hex_encode(bytes)
}

/// Base64 encoding of bytes.
pub fn to_base64(bytes: &[u8]) -> (s: String)
    ensures
        s@ == base64_encode_spec(bytes@),
        base64_decode_spec(s@) == Some(bytes@),
{
    let s = base64_encode(bytes);
    proof {
        lemma_base64_decode_encode(bytes@);
    }
    s
}

/// Base64 decoding; on failure, the decoder's message.
pub fn from_base64(text: &str) -> (r: Result<Vec<u8>, String>)
    ensures
        r is Ok <==> base64_decode_spec(text@) is Some,
        r matches Ok(v) ==> base64_decode_spec(text@) == Some(v@),
{
    match base64_decode(text) {
        Ok(v) => {
            proof {
                lemma_base64_decode_encode(v@);
            }
            Ok(v)
        },
        Err(e) => {
            proof {
                reveal(base64_decode_spec);
            }
            Err(decode_error_text(&e))
        },
    }
}

pub proof fn lemma_b64_char_not_ws(v: int)
    requires
        0 <= v < 64,
    ensures
        !is_ws(b64_char(v)),
        b64_char(v) != '\n',
{
}

/// Base64 text holds no whitespace.
pub proof fn lemma_base64_no_ws(b: Seq<u8>)
    ensures
        forall|i: int|
            0 <= i < base64_encode_spec(b).len() ==> !is_ws(#[trigger] base64_encode_spec(b)[i]),
        !base64_encode_spec(b).contains('\n'),
        b.len() > 0 ==> base64_encode_spec(b).len() > 0,
    decreases b.len(),
{
    let s = base64_encode_spec(b);
    if b.len() == 0 {
    } else if b.len() == 1 {
        lemma_b64_char_not_ws((b[0] as int) / 4);
        lemma_b64_char_not_ws(((b[0] as int) % 4) * 16);
        assert forall|i: int| 0 <= i < s.len() implies !is_ws(#[trigger] s[i]) && s[i] != '\n' by {}
    } else if b.len() == 2 {
        lemma_b64_char_not_ws((b[0] as int) / 4);
        lemma_b64_char_not_ws(((b[0] as int) % 4) * 16 + (b[1] as int) / 16);
        lemma_b64_char_not_ws(((b[1] as int) % 16) * 4);
        assert forall|i: int| 0 <= i < s.len() implies !is_ws(#[trigger] s[i]) && s[i] != '\n' by {}
    } else {
        lemma_b64_char_not_ws((b[0] as int) / 4);
        lemma_b64_char_not_ws(((b[0] as int) % 4) * 16 + (b[1] as int) / 16);
        lemma_b64_char_not_ws(((b[1] as int) % 16) * 4 + (b[2] as int) / 64);
        lemma_b64_char_not_ws((b[2] as int) % 64);
        lemma_base64_no_ws(b.skip(3));
        let h = seq![
            b64_char((b[0] as int) / 4),
            b64_char(((b[0] as int) % 4) * 16 + (b[1] as int) / 16),
            b64_char(((b[1] as int) % 16) * 4 + (b[2] as int) / 64),
            b64_char((b[2] as int) % 64),
        ];
        let t = base64_encode_spec(b.skip(3));
        assert(s == h + t);
        assert forall|i: int| 0 <= i < s.len() implies !is_ws(#[trigger] s[i]) && s[i] != '\n' by {
            if i >= 4 {
                assert(s[i] == t[i - 4]);
            }
        }
    }
}


pub proof fn lemma_b64_char_injective(x: int, y: int)
    requires
        0 <= x < 64,
        0 <= y < 64,
        b64_char(x) == b64_char(y),
    ensures
        x == y,
{
    assert((b64_char(x) as u32) == (b64_char(y) as u32));
}

proof fn lemma_b64_char_not_pad(v: int)
    requires
        0 <= v < 64,
    ensures
        b64_char(v) != '=',
{
}

/// Base64 encoding is one to one.
pub proof fn lemma_base64_encode_injective(a: Seq<u8>, b: Seq<u8>)
    requires
        base64_encode_spec(a) == base64_encode_spec(b),
    ensures
        a == b,
    decreases a.len(),
{
    let ea = base64_encode_spec(a);
    let eb = base64_encode_spec(b);
    if a.len() == 0 || b.len() == 0 {
        lemma_base64_no_ws(a);
        lemma_base64_no_ws(b);
        assert(a =~= b);
    } else {
        let a0 = a[0] as int;
        let b0 = b[0] as int;
        assert(ea[0] == b64_char(a0 / 4));
        assert(eb[0] == b64_char(b0 / 4));
        lemma_b64_char_injective(a0 / 4, b0 / 4);
        // which group shape: by the padding at positions 2 and 3
        if a.len() >= 3 {
            lemma_b64_char_not_pad(((a[1] as int) % 16) * 4 + (a[2] as int) / 64);
            lemma_b64_char_not_pad((a[2] as int) % 64);
        } else if a.len() == 2 {
            lemma_b64_char_not_pad(((a[1] as int) % 16) * 4);
        }
        if b.len() >= 3 {
            lemma_b64_char_not_pad(((b[1] as int) % 16) * 4 + (b[2] as int) / 64);
            lemma_b64_char_not_pad((b[2] as int) % 64);
        } else if b.len() == 2 {
            lemma_b64_char_not_pad(((b[1] as int) % 16) * 4);
        }
        if a.len() == 1 {
            assert(b.len() == 1);
            lemma_b64_char_injective((a0 % 4) * 16, (b0 % 4) * 16);
            assert(a0 == b0);
            assert(a =~= b);
        } else if a.len() == 2 {
            assert(b.len() == 2);
            let a1 = a[1] as int;
            let b1 = b[1] as int;
            lemma_b64_char_injective((a0 % 4) * 16 + a1 / 16, (b0 % 4) * 16 + b1 / 16);
            lemma_b64_char_injective((a1 % 16) * 4, (b1 % 16) * 4);
            assert(a0 == b0);
            assert(a1 == b1);
            assert(a =~= b);
        } else {
            assert(b.len() >= 3);
            let a1 = a[1] as int;
            let b1 = b[1] as int;
            let a2 = a[2] as int;
            let b2 = b[2] as int;
            assert(ea[1] == b64_char((a0 % 4) * 16 + a1 / 16));
            assert(eb[1] == b64_char((b0 % 4) * 16 + b1 / 16));
            assert(ea[2] == b64_char((a1 % 16) * 4 + a2 / 64));
            assert(eb[2] == b64_char((b1 % 16) * 4 + b2 / 64));
            assert(ea[3] == b64_char(a2 % 64));
            assert(eb[3] == b64_char(b2 % 64));
            lemma_b64_char_injective((a0 % 4) * 16 + a1 / 16, (b0 % 4) * 16 + b1 / 16);
            lemma_b64_char_injective((a1 % 16) * 4 + a2 / 64, (b1 % 16) * 4 + b2 / 64);
            lemma_b64_char_injective(a2 % 64, b2 % 64);
            assert(a0 == b0);
            assert(a1 == b1);
            assert(a2 == b2);
            let ta = base64_encode_spec(a.skip(3));
            let tb = base64_encode_spec(b.skip(3));
            assert(ea.skip(4) =~= ta);
            assert(eb.skip(4) =~= tb);
            lemma_base64_encode_injective(a.skip(3), b.skip(3));
            assert(a =~= a.take(3) + a.skip(3));
            assert(b =~= b.take(3) + b.skip(3));
            assert(a.take(3) =~= b.take(3));
        }
    }
}

} // verus!
