//! Unescaping HTML into raw text.
//!
//! Character references are expanded as the WHATWG parsing rules say. A
//! named reference may lack its trailing semicolon; whether such a bare
//! reference is expanded depends on where the text stood, see [`Context`].

pub mod internal;
pub mod model;
pub mod named;
pub mod numeric;
pub mod validity;

use crate::table::entity_table;
use crate::unescape::internal::{ContextAttribute, ContextGeneral, Phf};
use crate::unescape::model::{has_reference, unescape_bytes};
use std::borrow::Cow;
use vstd::prelude::*;
use vstd::utf8::encode_utf8;

verus! {

/// Where the text to unescape stood.
#[derive(Clone, Copy, Debug, PartialEq, Eq, Structural)]
pub enum Context {
    /// Anywhere outside of an attribute value, such as regular text.
    General,
    /// The value of an attribute.
    Attribute,
}

/// Expands the character references in a string by the rules for text
/// outside of an attribute value.
pub fn unescape<'a>(escaped: &'a str) -> (unescaped: Cow<'a, str>)
    ensures
        encode_utf8(unescaped@) == unescape_bytes(
            entity_table(),
            encode_utf8(escaped@),
            Context::General,
        ),
        has_reference(entity_table(), encode_utf8(escaped@), Context::General)
            ==> unescaped is Owned,
        !has_reference(entity_table(), encode_utf8(escaped@), Context::General) ==> unescaped
            == Cow::Borrowed(escaped),
{
    unescape_in(escaped, Context::General)
}

/// Expands the character references in a string by the rules for the value
/// of an attribute.
pub fn unescape_attribute<'a>(escaped: &'a str) -> (unescaped: Cow<'a, str>)
    ensures
        encode_utf8(unescaped@) == unescape_bytes(
            entity_table(),
            encode_utf8(escaped@),
            Context::Attribute,
        ),
        has_reference(entity_table(), encode_utf8(escaped@), Context::Attribute)
            ==> unescaped is Owned,
        !has_reference(entity_table(), encode_utf8(escaped@), Context::Attribute) ==> unescaped
            == Cow::Borrowed(escaped),
{
    unescape_in(escaped, Context::Attribute)
}

/// Expands the character references in a string by the rules of `context`.
///
/// In an attribute value a named reference without its semicolon is left
/// alone when `=` or a letter or digit follows it: there `&times=` and
/// `&timesX` stay as they are, while outside `&times` is expanded in
/// both. Input without a reference is handed back as it came, without a
/// copy.
pub fn unescape_in<'a>(escaped: &'a str, context: Context) -> (unescaped: Cow<'a, str>)
    ensures
        encode_utf8(unescaped@) == unescape_bytes(entity_table(), encode_utf8(escaped@), context),
        has_reference(entity_table(), encode_utf8(escaped@), context) ==> unescaped is Owned,
        !has_reference(entity_table(), encode_utf8(escaped@), context) ==> unescaped
            == Cow::Borrowed(escaped),
{
    match context {
        Context::General => internal::unescape_in((Phf, ContextGeneral), escaped),
        Context::Attribute => internal::unescape_in((Phf, ContextAttribute), escaped),
    }
}

/// Expands the character references in a byte string by the rules of
/// `context`.
///
/// In an attribute value a named reference without its semicolon is left
/// alone when `=` or a letter or digit follows it: there `&times=` and
/// `&timesX` stay as they are, while outside `&times` is expanded in
/// both. Input without a reference is handed back as it came, without a
/// copy.
pub fn unescape_bytes_in<'a>(escaped: &'a [u8], context: Context) -> (unescaped: Cow<'a, [u8]>)
    ensures
        unescaped@ == unescape_bytes(entity_table(), escaped@, context),
        has_reference(entity_table(), escaped@, context) ==> unescaped is Owned,
        !has_reference(entity_table(), escaped@, context) ==> unescaped == Cow::Borrowed(escaped),
{
    match context {
        Context::General => internal::unescape_bytes_in((Phf, ContextGeneral), escaped),
        Context::Attribute => internal::unescape_bytes_in((Phf, ContextAttribute), escaped),
    }
}

} // verus!
