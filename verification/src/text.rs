//! Bytes as UTF-8 text: building a `String` from bytes, and the facts
//! about valid UTF-8 that keep a rewritten text valid.

use vstd::prelude::*;
use vstd::utf8::{
    encode_scalar, encode_utf8, is_scalar, length_of_first_scalar, pop_first_scalar, valid_utf8,
};

verus! {

/// Makes a `String` of `bytes` with `String::from_utf8`, which succeeds
/// exactly when the bytes are valid UTF-8 and then gives the text that they
/// encode.
#[verifier::external_body]
pub(crate) fn string_from_utf8(bytes: Vec<u8>) -> (text: Option<String>)
    ensures
        text is Some <==> valid_utf8(bytes@),
        text is Some ==> encode_utf8(text.unwrap()@) == bytes@,
{
    match String::from_utf8(bytes) {
        Ok(text) => Some(text),
        Err(_) => None,
    }
}

/// Whether every one of the first `count` bytes of `s` is an ASCII byte.
pub open spec fn starts_ascii(s: Seq<u8>, count: int) -> bool {
    forall|i: int| 0 <= i < count ==> #[trigger] s[i] < 0x80
}

/// ASCII bytes are valid UTF-8.
pub proof fn lemma_ascii_valid(s: Seq<u8>)
    requires
        starts_ascii(s, s.len() as int),
    ensures
        valid_utf8(s),
    decreases s.len(),
{
    if s.len() > 0 {
        let rest = pop_first_scalar(s);
        lemma_ascii_valid(rest);
    }
}

/// Valid UTF-8 stays valid when ASCII bytes are taken off its front.
pub proof fn lemma_skip_ascii_valid(s: Seq<u8>, count: int)
    requires
        valid_utf8(s),
        0 <= count <= s.len(),
        starts_ascii(s, count),
    ensures
        valid_utf8(s.skip(count)),
    decreases count,
{
    if count == 0 {
        assert(s.skip(0) =~= s);
    } else {
        let rest = pop_first_scalar(s);
        lemma_skip_ascii_valid(rest, count - 1);
        assert(rest.skip(count - 1) =~= s.skip(count));
    }
}

/// Valid UTF-8 that is not empty splits into the bytes of its first
/// character and valid UTF-8; a character of more than one byte has no ASCII
/// byte.
pub proof fn lemma_first_character(s: Seq<u8>)
    requires
        valid_utf8(s),
        s.len() > 0,
    ensures
        1 <= length_of_first_scalar(s) <= s.len(),
        valid_utf8(s.take(length_of_first_scalar(s))),
        valid_utf8(s.skip(length_of_first_scalar(s))),
        s[0] < 0x80 <==> length_of_first_scalar(s) == 1,
        length_of_first_scalar(s) > 1 ==> forall|i: int|
            0 <= i < length_of_first_scalar(s) ==> #[trigger] s[i] >= 0x80,
{
    reveal_with_fuel(valid_utf8, 2);
}

/// The encoding of a code point is valid UTF-8.
pub proof fn lemma_encode_scalar_valid(scalar: u32)
    requires
        is_scalar(scalar),
    ensures
        valid_utf8(encode_scalar(scalar)),
{
    let c = scalar as char;
    let chars = seq![c];
    reveal_with_fuel(encode_utf8, 2);
    vstd::utf8::encode_utf8_valid_utf8(chars);
}

} // verus!
