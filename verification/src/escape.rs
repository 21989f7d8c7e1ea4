//! Escaping raw text so that it can be embedded in HTML.
//!
//! |                     | `&` | `<` | `>` | `"` | `'` |
//! |---------------------|:---:|:---:|:---:|:---:|:---:|
//! | `escape_text`       |  ✓  |  ✓  |  ✓  |     |     |
//! | `escape_attribute`  |  ✓  |  ✓  |  ✓  |  ✓  |     |
//! | `escape_all_quotes` |  ✓  |  ✓  |  ✓  |  ✓  |  ✓  |

use crate::cursor::{advance_until, Cursor};
use crate::text::{lemma_ascii_valid, lemma_first_character, string_from_utf8};
use std::borrow::Cow;
use vstd::prelude::*;
use vstd::slice::slice_subrange;
use vstd::utf8::{encode_utf8, length_of_first_scalar, valid_utf8};

verus! {

/// Which characters are escaped.
#[derive(Clone, Copy, Debug, PartialEq, Eq, Structural)]
pub enum Mode {
    /// `&`, `<` and `>`: enough for a text node.
    Text,
    /// Those of `Text` and `"`: enough for a quoted attribute value.
    Attribute,
    /// Those of `Attribute` and `'`.
    AllQuotes,
}

/// Whether `b` is escaped in `mode`.
pub open spec fn is_special(b: u8, mode: Mode) -> bool {
    ||| b == 0x26
    ||| b == 0x3C
    ||| b == 0x3E
    ||| (b == 0x22 && mode != Mode::Text)
    ||| (b == 0x27 && mode == Mode::AllQuotes)
}

/// The entity that stands for `b`: `&amp;`, `&lt;`, `&gt;`, `&quot;` or
/// `&apos;`. A byte that is never escaped has none.
pub open spec fn entity_for(b: u8) -> Seq<u8> {
    if b == 0x26 {
        seq![0x26u8, 0x61, 0x6D, 0x70, 0x3B]
    } else if b == 0x3C {
        seq![0x26u8, 0x6C, 0x74, 0x3B]
    } else if b == 0x3E {
        seq![0x26u8, 0x67, 0x74, 0x3B]
    } else if b == 0x22 {
        seq![0x26u8, 0x71, 0x75, 0x6F, 0x74, 0x3B]
    } else if b == 0x27 {
        seq![0x26u8, 0x61, 0x70, 0x6F, 0x73, 0x3B]
    } else {
        seq![]
    }
}

/// What `b` is written as in `mode`.
pub open spec fn escape_byte(b: u8, mode: Mode) -> Seq<u8> {
    if is_special(b, mode) {
        entity_for(b)
    } else {
        seq![b]
    }
}

/// The text that `s` escapes to in `mode`: each special byte is replaced
/// by its entity, and every other byte stands as it is.
pub open spec fn escape_bytes(s: Seq<u8>, mode: Mode) -> Seq<u8>
    decreases s.len(),
{
    if s.len() == 0 {
        s
    } else {
        escape_byte(s[0], mode) + escape_bytes(s.skip(1), mode)
    }
}

/// Whether none of the first `count` bytes of `s` is escaped in `mode`.
pub open spec fn starts_clean(s: Seq<u8>, mode: Mode, count: int) -> bool {
    forall|i: int| 0 <= i < count ==> !is_special(#[trigger] s[i], mode)
}

/// Whether some byte of `s` is escaped in `mode`.
pub open spec fn has_special(s: Seq<u8>, mode: Mode) -> bool {
    !starts_clean(s, mode, s.len() as int)
}

/// Bytes that need no escaping stand as they are.
pub proof fn lemma_escape_literal(s: Seq<u8>, mode: Mode, count: int)
    requires
        0 <= count <= s.len(),
        starts_clean(s, mode, count),
    ensures
        escape_bytes(s, mode) == s.take(count) + escape_bytes(s.skip(count), mode),
    decreases count,
{
    if count == 0 {
        assert(s.skip(0) =~= s);
    } else {
        let rest = s.skip(1);
        lemma_escape_literal(rest, mode, count - 1);
        assert(rest.skip(count - 1) =~= s.skip(count));
    }
}

/// Text in which nothing needs escaping escapes to itself.
pub proof fn lemma_escape_unchanged(s: Seq<u8>, mode: Mode)
    requires
        !has_special(s, mode),
    ensures
        escape_bytes(s, mode) == s,
{
    lemma_escape_literal(s, mode, s.len() as int);
}

/// Escaping keeps valid UTF-8 valid.
pub proof fn lemma_escape_valid_utf8(s: Seq<u8>, mode: Mode)
    requires
        valid_utf8(s),
    ensures
        valid_utf8(escape_bytes(s, mode)),
    decreases s.len(),
{
    if s.len() > 0 {
        lemma_first_character(s);
        let width = length_of_first_scalar(s);
        let rest = s.skip(width);
        lemma_escape_valid_utf8(rest, mode);
        if width == 1 {
            let piece = escape_byte(s[0], mode);
            lemma_ascii_valid(piece);
            vstd::utf8::valid_utf8_concat(piece, escape_bytes(rest, mode));
        } else {
            lemma_escape_literal(s, mode, width);
            vstd::utf8::valid_utf8_concat(s.take(width), escape_bytes(rest, mode));
        }
    }
}

/// Whether `b` is escaped in an attribute value.
fn is_attribute_special(b: u8) -> (yes: bool)
    ensures
        yes == is_special(b, Mode::Attribute),
{
    b == 0x26 || b == 0x3C || b == 0x3E || b == 0x22
}

/// Whether `b` is escaped where all quotes are.
fn is_all_quotes_special(b: u8) -> (yes: bool)
    ensures
        yes == is_special(b, Mode::AllQuotes),
{
    b == 0x26 || b == 0x3C || b == 0x3E || b == 0x22 || b == 0x27
}

/// The position of the first byte of `haystack` that is escaped in `mode`.
fn find_u8(haystack: &[u8], mode: Mode) -> (found: Option<usize>)
    ensures
        match found {
            Some(index) => index < haystack@.len() && is_special(haystack@[index as int], mode)
                && starts_clean(haystack@, mode, index as int),
            None => !has_special(haystack@, mode),
        },
{
    match mode {
        Mode::Text => memchr::memchr3(0x26, 0x3C, 0x3E, haystack),
        Mode::Attribute => {
            let mut iter = Cursor::new(haystack);
            if advance_until(&mut iter, is_attribute_special) {
                Some(haystack.len() - iter.len())
            } else {
                None
            }
        },
        Mode::AllQuotes => {
            let mut iter = Cursor::new(haystack);
            if advance_until(&mut iter, is_all_quotes_special) {
                Some(haystack.len() - iter.len())
            } else {
                None
            }
        },
    }
}

/// The entity that stands for `c`, or nothing for a byte that is never
/// escaped.
pub(crate) fn map_u8(c: u8) -> (entity: &'static [u8])
    ensures
        entity@ == entity_for(c),
{
    if c == 0x26 {
        let entity: &'static [u8] = &[0x26u8, 0x61, 0x6D, 0x70, 0x3B];
        entity
    } else if c == 0x3C {
        let entity: &'static [u8] = &[0x26u8, 0x6C, 0x74, 0x3B];
        entity
    } else if c == 0x3E {
        let entity: &'static [u8] = &[0x26u8, 0x67, 0x74, 0x3B];
        entity
    } else if c == 0x22 {
        let entity: &'static [u8] = &[0x26u8, 0x71, 0x75, 0x6F, 0x74, 0x3B];
        entity
    } else if c == 0x27 {
        let entity: &'static [u8] = &[0x26u8, 0x61, 0x70, 0x6F, 0x73, 0x3B];
        entity
    } else {
        let entity: &'static [u8] = &[];
        entity
    }
}

/// Escapes `raw` in `mode`, or returns `None` where that would change
/// nothing.
fn escape_bytes_internal(raw: &[u8], mode: Mode) -> (output: Option<Vec<u8>>)
    ensures
        match output {
            Some(escaped) => has_special(raw@, mode) && escaped@ == escape_bytes(raw@, mode),
            None => !has_special(raw@, mode) && raw@ == escape_bytes(raw@, mode),
        },
{
    match find_u8(raw, mode) {
        Some(first) => {
            let capacity = match raw.len().checked_mul(2) {
                Some(doubled) => doubled,
                None => raw.len(),
            };
            let mut output: Vec<u8> = Vec::with_capacity(capacity);
            let mut remainder = raw;
            let mut next = first;
            loop
                invariant
                    next < remainder@.len(),
                    is_special(remainder@[next as int], mode),
                    starts_clean(remainder@, mode, next as int),
                    output@ + escape_bytes(remainder@, mode) == escape_bytes(raw@, mode),
                    has_special(raw@, mode),
                decreases remainder@.len(),
            {
                let ghost ahead = remainder@;
                proof {
                    lemma_escape_literal(ahead, mode, next as int);
                    assert(ahead.skip(next as int).skip(1) =~= ahead.skip(next + 1));
                }
                output.extend_from_slice(slice_subrange(remainder, 0, next));
                output.extend_from_slice(map_u8(remainder[next]));
                remainder = slice_subrange(remainder, next + 1, remainder.len());
                match find_u8(remainder, mode) {
                    Some(index) => {
                        next = index;
                    },
                    None => {
                        proof {
                            lemma_escape_unchanged(remainder@, mode);
                        }
                        output.extend_from_slice(remainder);
                        return Some(output);
                    },
                }
            }
        },
        None => {
            proof {
                lemma_escape_unchanged(raw@, mode);
            }
            None
        },
    }
}

/// Escapes a byte string in `mode`. Input in which nothing needs escaping
/// is handed back as it came, without a copy.
fn escape_bytes_in<'a>(input: &'a [u8], mode: Mode) -> (escaped: Cow<'a, [u8]>)
    ensures
        escaped@ == escape_bytes(input@, mode),
        has_special(input@, mode) ==> escaped is Owned,
        !has_special(input@, mode) ==> escaped == Cow::Borrowed(input),
{
    match escape_bytes_internal(input, mode) {
        Some(output) => Cow::Owned(output),
        None => Cow::Borrowed(input),
    }
}

/// Escapes a string in `mode`. Input in which nothing needs escaping is
/// handed back as it came, without a copy.
fn escape_in<'a>(input: &'a str, mode: Mode) -> (escaped: Cow<'a, str>)
    ensures
        encode_utf8(escaped@) == escape_bytes(encode_utf8(input@), mode),
        has_special(encode_utf8(input@), mode) ==> escaped is Owned,
        !has_special(encode_utf8(input@), mode) ==> escaped == Cow::Borrowed(input),
{
    let raw = input.as_bytes();
    proof {
        vstd::utf8::encode_utf8_valid_utf8(input@);
        lemma_escape_valid_utf8(raw@, mode);
    }
    match escape_bytes_internal(raw, mode) {
        Some(output) => match string_from_utf8(output) {
            Some(text) => Cow::Owned(text),
            // Never taken: what a string escapes to is valid UTF-8.
            None => Cow::Borrowed(input),
        },
        None => Cow::Borrowed(input),
    }
}

/// Escapes a string used in a text node, that is regular text: `&`, `<`
/// and `>` are replaced. Not enough for an attribute value.
pub fn escape_text<'a>(input: &'a str) -> (escaped: Cow<'a, str>)
    ensures
        encode_utf8(escaped@) == escape_bytes(encode_utf8(input@), Mode::Text),
        has_special(encode_utf8(input@), Mode::Text) ==> escaped is Owned,
        !has_special(encode_utf8(input@), Mode::Text) ==> escaped == Cow::Borrowed(input),
{
    escape_in(input, Mode::Text)
}

/// Escapes a byte string used in a text node, that is regular text: `&`,
/// `<` and `>` are replaced. Not enough for an attribute value.
pub fn escape_text_bytes<'a>(input: &'a [u8]) -> (escaped: Cow<'a, [u8]>)
    ensures
        escaped@ == escape_bytes(input@, Mode::Text),
        has_special(input@, Mode::Text) ==> escaped is Owned,
        !has_special(input@, Mode::Text) ==> escaped == Cow::Borrowed(input),
{
    escape_bytes_in(input, Mode::Text)
}

/// Escapes a string to be used in a quoted attribute value: `&`, `<`, `>`
/// and `"` are replaced.
pub fn escape_attribute<'a>(input: &'a str) -> (escaped: Cow<'a, str>)
    ensures
        encode_utf8(escaped@) == escape_bytes(encode_utf8(input@), Mode::Attribute),
        has_special(encode_utf8(input@), Mode::Attribute) ==> escaped is Owned,
        !has_special(encode_utf8(input@), Mode::Attribute) ==> escaped == Cow::Borrowed(input),
{
    escape_in(input, Mode::Attribute)
}

/// Escapes a byte string to be used in a quoted attribute value: `&`, `<`,
/// `>` and `"` are replaced.
pub fn escape_attribute_bytes<'a>(input: &'a [u8]) -> (escaped: Cow<'a, [u8]>)
    ensures
        escaped@ == escape_bytes(input@, Mode::Attribute),
        has_special(input@, Mode::Attribute) ==> escaped is Owned,
        !has_special(input@, Mode::Attribute) ==> escaped == Cow::Borrowed(input),
{
    escape_bytes_in(input, Mode::Attribute)
}

/// Escapes a string with both kinds of quotes: `&`, `<`, `>`, `"` and `'`
/// are replaced. Seldom needed, as an apostrophe is safe in a value that
/// stands in double quotes.
pub fn escape_all_quotes<'a>(input: &'a str) -> (escaped: Cow<'a, str>)
    ensures
        encode_utf8(escaped@) == escape_bytes(encode_utf8(input@), Mode::AllQuotes),
        has_special(encode_utf8(input@), Mode::AllQuotes) ==> escaped is Owned,
        !has_special(encode_utf8(input@), Mode::AllQuotes) ==> escaped == Cow::Borrowed(input),
{
    escape_in(input, Mode::AllQuotes)
}

/// Escapes a byte string with both kinds of quotes: `&`, `<`, `>`, `"` and
/// `'` are replaced. Seldom needed, as an apostrophe is safe in a value
/// that stands in double quotes.
pub fn escape_all_quotes_bytes<'a>(input: &'a [u8]) -> (escaped: Cow<'a, [u8]>)
    ensures
        escaped@ == escape_bytes(input@, Mode::AllQuotes),
        has_special(input@, Mode::AllQuotes) ==> escaped is Owned,
        !has_special(input@, Mode::AllQuotes) ==> escaped == Cow::Borrowed(input),
{
    escape_bytes_in(input, Mode::AllQuotes)
}

} // verus!
