//! What the name codec needs to know of UTF-8: when bytes are text, and where
//! the dot stands in encoded text.

use vstd::prelude::*;
use vstd::utf8::{encode_utf8, valid_utf8};

verus! {

/// The error of `core::str::from_utf8`, carried through unopened.
#[verifier::external_type_specification]
#[verifier::external_body]
pub struct ExUtf8Error(core::str::Utf8Error);

/// `core::str::from_utf8` accepts exactly the byte strings that are valid UTF-8,
/// and the text it returns is encoded by the bytes it was given.
pub assume_specification[ core::str::from_utf8 ](v: &[u8]) -> (result: Result<
    &str,
    core::str::Utf8Error,
>)
    ensures
        result is Ok <==> valid_utf8(v@),
        result matches Ok(text) ==> encode_utf8(text@) == v@,
;

/// The byte that encodes `.`, the separator of the labels of a dotted name.
pub const DOT: u8 = 0x2e;

/// The encoding of two strings set end to end is their encodings set end to end.
pub proof fn lemma_encode_concat(a: Seq<char>, b: Seq<char>)
    ensures
        encode_utf8(a + b) == encode_utf8(a) + encode_utf8(b),
    decreases a.len(),
{
    if a.len() == 0 {
        assert(a + b =~= b);
    } else {
        assert((a + b).drop_first() =~= a.drop_first() + b);
        lemma_encode_concat(a.drop_first(), b);
    }
}

/// No byte in the encoding of a scalar other than `.` is the byte `.`.
proof fn lemma_scalar_bytes_not_dot(v: u32)
    by (bit_vector)
    requires
        v != 0x2e,
    ensures
        v <= 0x7f ==> (v & 0x7f) as u8 != 0x2e,
        (0xc0u8 | ((v >> 6) & 0x1f) as u8) != 0x2e,
        (0xe0u8 | ((v >> 12) & 0x0f) as u8) != 0x2e,
        (0xf0u8 | ((v >> 18) & 0x07) as u8) != 0x2e,
        (0x80u8 | (v & 0x3f) as u8) != 0x2e,
        (0x80u8 | ((v >> 6) & 0x3f) as u8) != 0x2e,
        (0x80u8 | ((v >> 12) & 0x3f) as u8) != 0x2e,
{
}

/// The dot is encoded as the single byte `DOT`, and that byte occurs in the
/// encoding of no other character.
pub proof fn lemma_encode_char(c: char)
    ensures
        1 <= encode_utf8(seq![c]).len() <= 4,
        c == '.' ==> encode_utf8(seq![c]) == seq![DOT],
        c != '.' ==> forall|k: int|
            0 <= k < encode_utf8(seq![c]).len() ==> encode_utf8(seq![c])[k] != DOT,
{
    let one = seq![c];
    assert(one.drop_first() =~= Seq::<char>::empty());
    assert(encode_utf8(one.drop_first()) =~= Seq::<u8>::empty());
    let scalar = vstd::utf8::encode_scalar(c as u32);
    assert(encode_utf8(one) =~= scalar);
    let v = c as u32;
    if c == '.' {
        assert((0x2eu32 & 0x7f) as u8 == 0x2eu8) by (bit_vector);
    } else {
        vstd::utf8::char_u32_cast(c, v);
        vstd::utf8::char_u32_cast('.', 0x2eu32);
        assert(v != 0x2e);
        lemma_scalar_bytes_not_dot(v);
    }
}

} // verus!
