//! The machinery behind the unescape functions.

use crate::cursor::{peek_at, Cursor};
use crate::table::entity_table;
use crate::text::string_from_utf8;
use crate::unescape::model::{
    expansion_view, has_reference, is_reference_at, lemma_reference_bound,
    lemma_unescape_literal, lemma_unescape_unchanged, match_reference, matched_as,
    unescape_bytes, AMPERSAND,
};
use crate::unescape::named::match_entity_slow;
use crate::unescape::Context;
use std::borrow::Cow;
use vstd::prelude::*;
use vstd::slice::slice_subrange;
use vstd::utf8::encode_utf8;

verus! {

/// A way of matching a character reference at a cursor, for one context.
pub trait Matcher {
    /// The context whose rules the matcher follows.
    spec fn context() -> Context;

    /// Matches the character reference that the cursor stands in front of.
    /// Either it finds one: the result is its expansion, and the cursor is
    /// moved behind it. Or it finds none: the result is `None`, and the
    /// cursor is moved behind the `&`.
    fn match_entity(iter: &mut Cursor) -> (expansion: Option<Cow<'static, [u8]>>)
        requires
            peek_at(old(iter)@, 0) == Some(AMPERSAND),
        ensures
            matched_as(
                old(iter)@,
                final(iter)@,
                expansion_view(expansion),
                match_reference(entity_table(), old(iter)@, Self::context()),
            ),
    ;
}

/// Matching by looking candidates up in the entity table.
pub struct Phf;

/// Unescape context: the value of an attribute.
#[derive(Clone, Copy, Debug)]
pub struct ContextAttribute;

/// Unescape context: anywhere outside of an attribute value, such as
/// regular text.
pub struct ContextGeneral;

impl Matcher for (Phf, ContextAttribute) {
    open spec fn context() -> Context {
        Context::Attribute
    }

    fn match_entity(iter: &mut Cursor) -> (expansion: Option<Cow<'static, [u8]>>) {
        match_entity_slow(iter, Context::Attribute)
    }
}

impl Matcher for (Phf, ContextGeneral) {
    open spec fn context() -> Context {
        Context::General
    }

    fn match_entity(iter: &mut Cursor) -> (expansion: Option<Cow<'static, [u8]>>) {
        match_entity_slow(iter, Context::General)
    }
}

/// Looks for the next character reference ahead of the cursor. With one,
/// the result is the number of bytes in front of it and its expansion, and
/// the cursor is moved behind it. Without one, the cursor is moved to the
/// end.
fn find_reference<M: Matcher>(iter: &mut Cursor) -> (found: Option<(usize, Cow<'static, [u8]>)>)
    ensures
        match found {
            Some((literal, expansion)) => {
                &&& is_reference_at(entity_table(), old(iter)@, M::context(), literal as int)
                &&& forall|at: int|
                    0 <= at < literal ==> !is_reference_at(
                        entity_table(),
                        old(iter)@,
                        M::context(),
                        at,
                    )
                &&& matched_as(
                    old(iter)@.skip(literal as int),
                    final(iter)@,
                    Some(expansion@),
                    match_reference(entity_table(), old(iter)@.skip(literal as int), M::context()),
                )
            },
            None => !has_reference(entity_table(), old(iter)@, M::context()) && final(iter)@.len()
                == 0,
        },
{
    let ghost input = iter@;
    let total = iter.len();
    loop
        invariant
            input == old(iter)@,
            total == input.len(),
            iter@.len() <= total,
            iter@ == input.skip(total - iter@.len()),
            forall|at: int|
                0 <= at < total - iter@.len() ==> !is_reference_at(
                    entity_table(),
                    input,
                    M::context(),
                    at,
                ),
        decreases iter@.len(),
    {
        let ghost passed = total - iter@.len();
        match memchr::memchr(AMPERSAND, iter.as_slice()) {
            Some(offset) => {
                assert forall|at: int| passed <= at < passed + offset implies !is_reference_at(
                    entity_table(),
                    input,
                    M::context(),
                    at,
                ) by {
                    assert(iter@[at - passed] == input[at]);
                }
                iter.advance(offset);
                let literal = total - iter.len();
                assert(iter@ =~= input.skip(literal as int));
                match M::match_entity(iter) {
                    Some(expansion) => {
                        return Some((literal, expansion));
                    },
                    None => {},
                }
            },
            None => {
                assert forall|at: int| passed <= at < total implies !is_reference_at(
                    entity_table(),
                    input,
                    M::context(),
                    at,
                ) by {
                    assert(iter@[at - passed] == input[at]);
                }
                let rest = iter.len();
                iter.advance(rest);
                return None;
            },
        }
    }
}

/// Appends the bytes of `expansion` to `buffer`.
fn extend_from_expansion(buffer: &mut Vec<u8>, expansion: &Cow<'static, [u8]>)
    ensures
        final(buffer)@ == old(buffer)@ + expansion@,
{
    match expansion {
        Cow::Borrowed(bytes) => buffer.extend_from_slice(bytes),
        Cow::Owned(bytes) => buffer.extend_from_slice(bytes.as_slice()),
    }
}

/// Unescapes `escaped`, or returns `None` where that would change nothing.
fn unescape_in_internal<M: Matcher>(escaped: &[u8]) -> (output: Option<Vec<u8>>)
    ensures
        match output {
            Some(buffer) => has_reference(entity_table(), escaped@, M::context()) && buffer@
                == unescape_bytes(entity_table(), escaped@, M::context()),
            None => !has_reference(entity_table(), escaped@, M::context()) && escaped@
                == unescape_bytes(entity_table(), escaped@, M::context()),
        },
{
    let ghost table = entity_table();
    let ghost context = M::context();
    let mut iter = Cursor::new(escaped);
    match find_reference::<M>(&mut iter) {
        None => {
            proof {
                lemma_unescape_unchanged(table, escaped@, context);
            }
            None
        },
        Some((literal, expansion)) => {
            // Nearly every reference is at least as long as its expansion.
            let mut buffer: Vec<u8> = Vec::with_capacity(escaped.len());
            buffer.extend_from_slice(slice_subrange(escaped, 0, literal));
            extend_from_expansion(&mut buffer, &expansion);
            let mut remainder = iter.as_slice();
            proof {
                lemma_unescape_literal(table, escaped@, context, literal as int);
            }
            loop
                invariant
                    table == entity_table(),
                    context == M::context(),
                    iter@ == remainder@,
                    buffer@ + unescape_bytes(table, remainder@, context) == unescape_bytes(
                        table,
                        escaped@,
                        context,
                    ),
                    has_reference(table, escaped@, context),
                decreases remainder@.len(),
            {
                match find_reference::<M>(&mut iter) {
                    Some((literal, expansion)) => {
                        proof {
                            lemma_unescape_literal(table, remainder@, context, literal as int);
                            lemma_reference_bound(table, remainder@.skip(literal as int), context);
                        }
                        buffer.extend_from_slice(slice_subrange(remainder, 0, literal));
                        extend_from_expansion(&mut buffer, &expansion);
                        remainder = iter.as_slice();
                    },
                    None => {
                        proof {
                            lemma_unescape_unchanged(table, remainder@, context);
                        }
                        buffer.extend_from_slice(remainder);
                        return Some(buffer);
                    },
                }
            }
        },
    }
}

/// Expands the character references in the string `escaped` by the rules
/// of the matcher's context. Input without a reference is handed back as
/// it came, without a copy.
pub fn unescape_in<'a, M: Matcher>(_matcher: M, escaped: &'a str) -> (unescaped: Cow<'a, str>)
    ensures
        encode_utf8(unescaped@) == unescape_bytes(
            entity_table(),
            encode_utf8(escaped@),
            M::context(),
        ),
        has_reference(entity_table(), encode_utf8(escaped@), M::context()) ==> unescaped is Owned,
        !has_reference(entity_table(), encode_utf8(escaped@), M::context()) ==> unescaped
            == Cow::Borrowed(escaped),
{
    let bytes = escaped.as_bytes();
    proof {
        vstd::utf8::encode_utf8_valid_utf8(escaped@);
        crate::unescape::validity::lemma_entity_table_text();
        crate::unescape::validity::lemma_unescape_valid_utf8(
            entity_table(),
            bytes@,
            M::context(),
        );
    }
    match unescape_in_internal::<M>(bytes) {
        Some(buffer) => match string_from_utf8(buffer) {
            Some(text) => Cow::Owned(text),
            // Never taken: what a string unescapes to is valid UTF-8.
            None => Cow::Borrowed(escaped),
        },
        None => Cow::Borrowed(escaped),
    }
}

/// Expands the character references in `escaped` by the rules of the
/// matcher's context. Input without a reference is handed back as it came,
/// without a copy.
pub fn unescape_bytes_in<'a, M: Matcher>(_matcher: M, escaped: &'a [u8]) -> (unescaped: Cow<
    'a,
    [u8],
>)
    ensures
        unescaped@ == unescape_bytes(entity_table(), escaped@, M::context()),
        has_reference(entity_table(), escaped@, M::context()) ==> unescaped is Owned,
        !has_reference(entity_table(), escaped@, M::context()) ==> unescaped == Cow::Borrowed(
            escaped,
        ),
{
    match unescape_in_internal::<M>(escaped) {
        Some(buffer) => Cow::Owned(buffer),
        None => Cow::Borrowed(escaped),
    }
}

} // verus!
