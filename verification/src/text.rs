//! Strings and the bytes that they are made of.

use crate::decimal::{decimal, lemma_digits_shape, push_decimal};
use vstd::prelude::*;
use vstd::utf8::*;

verus! {

/// Whether every byte of `bytes` is below 128.
pub open spec fn is_ascii_bytes(bytes: Seq<u8>) -> bool {
    forall|i: int| 0 <= i < bytes.len() ==> #[trigger] bytes[i] < 0x80
}

/// The characters that a run of ASCII bytes stands for, one for each byte.
pub open spec fn ascii_text(bytes: Seq<u8>) -> Seq<char> {
    Seq::new(bytes.len(), |i: int| bytes[i] as char)
}

/// The decimal text of `v`, as characters.
pub open spec fn decimal_text(v: int) -> Seq<char> {
    ascii_text(decimal(v))
}

/// Calls `String::from_utf8` of std, and keeps the string where it gives one.
///
/// Trusted: a string comes back exactly where the bytes are valid UTF-8, and
/// that string is made of these bytes.
#[verifier::external_body]
pub(crate) fn string_from_utf8(bytes: Vec<u8>) -> (r: Option<String>)
    ensures
        r is Some <==> valid_utf8(bytes@),
        r matches Some(s) ==> encode_utf8(s@) == bytes@,
{
    String::from_utf8(bytes).ok()
}

/// No two texts share a UTF-8 encoding.
pub proof fn lemma_utf8_injective(a: Seq<char>, b: Seq<char>)
    requires
        encode_utf8(a) == encode_utf8(b),
    ensures
        a == b,
{
    encode_utf8_decode_utf8(a);
    encode_utf8_decode_utf8(b);
}

/// ASCII bytes are the UTF-8 encoding of the characters they stand for.
pub proof fn lemma_ascii_is_utf8(bytes: Seq<u8>)
    requires
        is_ascii_bytes(bytes),
    ensures
        encode_utf8(ascii_text(bytes)) == bytes,
{
    let text = ascii_text(bytes);
    assert forall|i: int| 0 <= i < text.len() implies '\0' <= #[trigger] text[i] <= '\u{7f}' by {
        assert(bytes[i] < 0x80);
    }
    is_ascii_chars_encode_utf8(text);
    assert forall|i: int| 0 <= i < bytes.len() implies encode_utf8(text)[i] == bytes[i] by {
        assert(text[i] as u8 == bytes[i]);
    }
    assert(encode_utf8(text) =~= bytes);
}

/// The string that a run of ASCII bytes stands for.
pub fn ascii_string(bytes: Vec<u8>) -> (s: String)
    requires
        is_ascii_bytes(bytes@),
    ensures
        s@ == ascii_text(bytes@),
{
    proof {
        lemma_ascii_is_utf8(bytes@);
        encode_utf8_valid_utf8(ascii_text(bytes@));
    }
    let ghost wanted = ascii_text(bytes@);
    let s = string_from_utf8(bytes).unwrap();
    proof {
        lemma_utf8_injective(s@, wanted);
    }
    s
}

/// The decimal text of `v`, as a string.
pub fn decimal_string(v: i32) -> (s: String)
    ensures
        s@ == decimal_text(v as int),
{
    let mut bytes: Vec<u8> = Vec::new();
    push_decimal(&mut bytes, v);
    proof {
        lemma_digits_shape((if v < 0 { -v } else { v as int }) as nat);
        assert(bytes@ =~= decimal(v as int));
    }
    ascii_string(bytes)
}

} // verus!
