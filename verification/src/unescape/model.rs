//! What unescaping means, as functions on sequences of bytes.
//!
//! The entity table is a parameter here: a map from the bytes of a name,
//! `&` and `;` included, to the bytes of its expansion.

use crate::bytes::{is_alphanumeric, is_digit, is_hex_digit};
use crate::table::{BARE_ENTITY_MAX_LENGTH, ENTITY_MAX_LENGTH, ENTITY_MIN_LENGTH};
use crate::unescape::Context;
use std::borrow::Cow;
use vstd::prelude::*;
use vstd::utf8::encode_scalar;

verus! {

/// The byte `&`, with which every character reference starts.
pub const AMPERSAND: u8 = 0x26;

/// The byte `#`, which follows the `&` of a numeric reference.
pub const HASH: u8 = 0x23;

/// The byte `;`, with which a character reference ends.
pub const SEMICOLON: u8 = 0x3B;

/// The byte `=`.
pub const EQUALS: u8 = 0x3D;

/// The byte `x`, which marks hexadecimal digits.
pub const LOWER_X: u8 = 0x78;

/// The byte `X`, which marks hexadecimal digits as well.
pub const UPPER_X: u8 = 0x58;

/// The code point U+FFFD, which stands in for a numeric reference that
/// names no character.
pub const REPLACEMENT: u32 = 0xFFFD;

/// A character reference found at the start of some input.
pub struct Reference {
    /// How many bytes of the input the reference takes up.
    pub consumed: nat,
    /// The bytes that replace it.
    pub expansion: Seq<u8>,
}

/// Whether `b` is a digit of the decimal or the hexadecimal system.
pub open spec fn is_digit_of(b: u8, hex: bool) -> bool {
    if hex {
        is_hex_digit(b)
    } else {
        is_digit(b)
    }
}

/// What the digit `b` counts for.
pub open spec fn digit_value(b: u8) -> nat {
    if is_digit(b) {
        (b - 0x30) as nat
    } else if 0x41 <= b <= 0x46 {
        (b - 0x41 + 10) as nat
    } else if 0x61 <= b <= 0x66 {
        (b - 0x61 + 10) as nat
    } else {
        0
    }
}

/// The base of the decimal or the hexadecimal system.
pub open spec fn radix(hex: bool) -> nat {
    if hex {
        16
    } else {
        10
    }
}

/// The number that `digits` spell, most significant digit first.
pub open spec fn digits_value(digits: Seq<u8>, hex: bool) -> nat
    decreases digits.len(),
{
    if digits.len() == 0 {
        0
    } else {
        digits_value(digits.drop_last(), hex) * radix(hex) + digit_value(digits.last())
    }
}

/// How many digits `s` starts with.
pub open spec fn digit_run(s: Seq<u8>, hex: bool) -> nat
    decreases s.len(),
{
    if s.len() > 0 && is_digit_of(s[0], hex) {
        1 + digit_run(s.skip(1), hex)
    } else {
        0
    }
}

/// The code point that a legacy reference to a C1 control code stands
/// for: the character that Windows-1252 has in that place.
pub open spec fn legacy_code_point(value: nat) -> Option<u32> {
    if value == 0x80 {
        Some(0x20AC)
    } else if value == 0x82 {
        Some(0x201A)
    } else if value == 0x83 {
        Some(0x0192)
    } else if value == 0x84 {
        Some(0x201E)
    } else if value == 0x85 {
        Some(0x2026)
    } else if value == 0x86 {
        Some(0x2020)
    } else if value == 0x87 {
        Some(0x2021)
    } else if value == 0x88 {
        Some(0x02C6)
    } else if value == 0x89 {
        Some(0x2030)
    } else if value == 0x8A {
        Some(0x0160)
    } else if value == 0x8B {
        Some(0x2039)
    } else if value == 0x8C {
        Some(0x0152)
    } else if value == 0x8E {
        Some(0x017D)
    } else if value == 0x91 {
        Some(0x2018)
    } else if value == 0x92 {
        Some(0x2019)
    } else if value == 0x93 {
        Some(0x201C)
    } else if value == 0x94 {
        Some(0x201D)
    } else if value == 0x95 {
        Some(0x2022)
    } else if value == 0x96 {
        Some(0x2013)
    } else if value == 0x97 {
        Some(0x2014)
    } else if value == 0x98 {
        Some(0x02DC)
    } else if value == 0x99 {
        Some(0x2122)
    } else if value == 0x9A {
        Some(0x0161)
    } else if value == 0x9B {
        Some(0x203A)
    } else if value == 0x9C {
        Some(0x0153)
    } else if value == 0x9E {
        Some(0x017E)
    } else if value == 0x9F {
        Some(0x0178)
    } else {
        None
    }
}

/// Whether `value` names no character: it is zero, a surrogate, or beyond
/// the last code point.
pub open spec fn is_unrepresentable(value: nat) -> bool {
    value == 0 || 0xD800 <= value <= 0xDFFF || value >= 0x110000
}

/// The code point that a numeric reference to `value` expands to.
pub open spec fn code_point_for(value: nat) -> u32 {
    if is_unrepresentable(value) {
        REPLACEMENT
    } else {
        match legacy_code_point(value) {
            Some(code_point) => code_point,
            None => value as u32,
        }
    }
}

/// The bytes that a numeric reference to `value` expands to.
pub open spec fn numeric_expansion(value: nat) -> Seq<u8> {
    encode_scalar(code_point_for(value))
}

/// Whether the digits of a numeric reference at the start of `s` are
/// hexadecimal; `s` starts with `&#`.
pub open spec fn is_hex_reference(s: Seq<u8>) -> bool {
    s.len() > 2 && (s[2] == LOWER_X || s[2] == UPPER_X)
}

/// The numeric reference at the start of `s`, which starts with `&#`:
/// an optional `x` or `X`, then as many digits as there are and at least
/// one, then a `;` if one follows.
pub open spec fn match_numeric(s: Seq<u8>) -> Option<Reference> {
    let hex = is_hex_reference(s);
    let start: int = if hex {
        3
    } else {
        2
    };
    let count = digit_run(s.skip(start), hex);
    let end = start + count;
    if count == 0 {
        None
    } else {
        Some(
            Reference {
                consumed: if end < s.len() && s[end] == SEMICOLON {
                    (end + 1) as nat
                } else {
                    end as nat
                },
                expansion: numeric_expansion(digits_value(s.subrange(start, end), hex)),
            },
        )
    }
}

/// How many letters and digits `s` starts with, counting no further than
/// `limit`.
pub open spec fn alphanumeric_run(s: Seq<u8>, limit: nat) -> nat
    decreases limit,
{
    if limit > 0 && s.len() > 0 && is_alphanumeric(s[0]) {
        1 + alphanumeric_run(s.skip(1), (limit - 1) as nat)
    } else {
        0
    }
}

/// The length of the name at the start of `s`, which starts with `&`: the
/// `&` and the letters and digits behind it, as far as the longest name
/// could reach.
pub open spec fn name_len(s: Seq<u8>) -> nat {
    1 + alphanumeric_run(s.skip(1), (ENTITY_MAX_LENGTH - 1) as nat)
}

/// Whether a `;` follows the name at the start of `s`.
pub open spec fn is_closed(s: Seq<u8>) -> bool {
    name_len(s) < s.len() && s[name_len(s) as int] == SEMICOLON
}

/// The length of the candidate at the start of `s`: the name, and the `;`
/// behind it if there is one.
pub open spec fn candidate_len(s: Seq<u8>) -> nat {
    if is_closed(s) {
        name_len(s) + 1
    } else {
        name_len(s)
    }
}

/// The least length from `from` to `to` at which the start of `s` is a name
/// of the table.
pub open spec fn first_bare(table: Map<Seq<u8>, Seq<u8>>, s: Seq<u8>, from: nat, to: nat) -> Option<
    nat,
>
    decreases to + 1 - from,
{
    if from > to {
        None
    } else if table.contains_key(s.take(from as int)) {
        Some(from)
    } else {
        first_bare(table, s, from + 1, to)
    }
}

/// Whether a bare reference of `len` bytes at the start of `s` is left
/// alone: in an attribute value, when `=` or a letter or digit follows.
pub open spec fn rejects_bare(context: Context, s: Seq<u8>, len: nat) -> bool {
    context == Context::Attribute && len < s.len() && (s[len as int] == EQUALS || is_alphanumeric(
        s[len as int],
    ))
}

/// The named reference at the start of `s`, which starts with `&`.
///
/// The candidate with its `;` is looked up first. Failing that, the
/// shortest start of the candidate that is a name of the table is taken,
/// unless the context rejects it.
pub open spec fn match_named(table: Map<Seq<u8>, Seq<u8>>, s: Seq<u8>, context: Context) -> Option<
    Reference,
> {
    let len = candidate_len(s);
    let whole = s.take(len as int);
    if len < ENTITY_MIN_LENGTH {
        None
    } else if is_closed(s) && table.contains_key(whole) {
        Some(Reference { consumed: len, expansion: table[whole] })
    } else {
        let longest = if len < BARE_ENTITY_MAX_LENGTH {
            len
        } else {
            BARE_ENTITY_MAX_LENGTH as nat
        };
        match first_bare(table, s, ENTITY_MIN_LENGTH as nat, longest) {
            Some(bare) => if rejects_bare(context, s, bare) {
                None
            } else {
                Some(Reference { consumed: bare, expansion: table[s.take(bare as int)] })
            },
            None => None,
        }
    }
}

/// What a matcher that was handed in found at the start of `s`: `found` is
/// its answer, the match with whether its name ends in `;` and with its
/// expansion, and the number of bytes that the name takes up. An answer
/// that takes up nothing, or more than there is, counts as none. In an
/// attribute value a match whose name lacks the `;` is left alone when `=`
/// or a letter or digit follows it.
pub open spec fn match_found(
    found: (Option<(bool, &'static [u8])>, usize),
    s: Seq<u8>,
    context: Context,
) -> Option<Reference> {
    match found.0 {
        Some((closed, expansion)) => if found.1 == 0 || found.1 > s.len() {
            None
        } else if !closed && rejects_bare(context, s, found.1 as nat) {
            None
        } else {
            Some(Reference { consumed: found.1 as nat, expansion: expansion@ })
        },
        None => None,
    }
}

/// The character reference at the start of `s`, which starts with `&`:
/// numeric where a `#` follows, named otherwise.
pub open spec fn match_reference(
    table: Map<Seq<u8>, Seq<u8>>,
    s: Seq<u8>,
    context: Context,
) -> Option<Reference> {
    if s.len() > 1 && s[1] == HASH {
        match_numeric(s)
    } else {
        match_named(table, s, context)
    }
}

/// Whether a cursor and a result are those of a matcher that found
/// `reference` ahead of the cursor: with a reference, the result is its
/// expansion and the cursor has passed it; without one, there is no result
/// and the cursor has passed the `&` alone.
pub open spec fn matched_as(
    before: Seq<u8>,
    after: Seq<u8>,
    expansion: Option<Seq<u8>>,
    reference: Option<Reference>,
) -> bool {
    match reference {
        Some(found) => expansion == Some(found.expansion) && found.consumed <= before.len()
            && after == before.skip(found.consumed as int),
        None => expansion is None && after == before.skip(1),
    }
}

/// The bytes of an optional expansion.
pub open spec fn expansion_view<'a>(expansion: Option<Cow<'a, [u8]>>) -> Option<Seq<u8>> {
    match expansion {
        Some(bytes) => Some(bytes@),
        None => None,
    }
}

/// Whether a character reference starts at position `at` of `s`.
pub open spec fn is_reference_at(
    table: Map<Seq<u8>, Seq<u8>>,
    s: Seq<u8>,
    context: Context,
    at: int,
) -> bool {
    0 <= at < s.len() && s[at] == AMPERSAND && match_reference(table, s.skip(at), context) is Some
}

/// Whether `s` holds a character reference anywhere.
pub open spec fn has_reference(table: Map<Seq<u8>, Seq<u8>>, s: Seq<u8>, context: Context) -> bool {
    exists|at: int| is_reference_at(table, s, context, at)
}

/// A digit run is no longer than what it runs over.
pub proof fn lemma_digit_run_bound(s: Seq<u8>, hex: bool)
    ensures
        digit_run(s, hex) <= s.len(),
    decreases s.len(),
{
    if s.len() > 0 && is_digit_of(s[0], hex) {
        lemma_digit_run_bound(s.skip(1), hex);
    }
}

/// A run of letters and digits stays within its limit and its input.
pub proof fn lemma_alphanumeric_run_bound(s: Seq<u8>, limit: nat)
    ensures
        alphanumeric_run(s, limit) <= limit,
        alphanumeric_run(s, limit) <= s.len(),
    decreases limit,
{
    if limit > 0 && s.len() > 0 && is_alphanumeric(s[0]) {
        lemma_alphanumeric_run_bound(s.skip(1), (limit - 1) as nat);
    }
}

/// What `first_bare` finds lies in the range searched, is a name of the
/// table, and is the first such length.
pub proof fn lemma_first_bare(table: Map<Seq<u8>, Seq<u8>>, s: Seq<u8>, from: nat, to: nat)
    ensures
        match first_bare(table, s, from, to) {
            Some(bare) => {
                &&& from <= bare <= to
                &&& table.contains_key(s.take(bare as int))
                &&& forall|len: nat|
                    from <= len < bare ==> !table.contains_key(#[trigger] s.take(len as int))
            },
            None => forall|len: nat|
                from <= len <= to ==> !table.contains_key(#[trigger] s.take(len as int)),
        },
    decreases to + 1 - from,
{
    if from <= to && !table.contains_key(s.take(from as int)) {
        lemma_first_bare(table, s, from + 1, to);
    }
}

/// A reference takes up at least one byte and no more than there are.
pub proof fn lemma_reference_bound(table: Map<Seq<u8>, Seq<u8>>, s: Seq<u8>, context: Context)
    requires
        s.len() > 0,
    ensures
        match match_reference(table, s, context) {
            Some(reference) => 1 <= reference.consumed <= s.len(),
            None => true,
        },
{
    if s.len() > 1 && s[1] == HASH {
        let hex = is_hex_reference(s);
        let start: int = if hex {
            3
        } else {
            2
        };
        lemma_digit_run_bound(s.skip(start), hex);
    } else {
        lemma_alphanumeric_run_bound(s.skip(1), (ENTITY_MAX_LENGTH - 1) as nat);
        let len = candidate_len(s);
        let longest = if len < BARE_ENTITY_MAX_LENGTH {
            len
        } else {
            BARE_ENTITY_MAX_LENGTH as nat
        };
        lemma_first_bare(table, s, ENTITY_MIN_LENGTH as nat, longest);
    }
}

/// The text that `s` unescapes to: each character reference is replaced by
/// its expansion, and every other byte stands as it is.
pub open spec fn unescape_bytes(table: Map<Seq<u8>, Seq<u8>>, s: Seq<u8>, context: Context) -> Seq<
    u8,
>
    decreases s.len(),
{
    if s.len() == 0 {
        s
    } else if s[0] == AMPERSAND {
        match match_reference(table, s, context) {
            Some(reference) => {
                proof {
                    lemma_reference_bound(table, s, context);
                }
                reference.expansion + unescape_bytes(
                    table,
                    s.skip(reference.consumed as int),
                    context,
                )
            },
            None => seq![s[0]] + unescape_bytes(table, s.skip(1), context),
        }
    } else {
        seq![s[0]] + unescape_bytes(table, s.skip(1), context)
    }
}

/// Bytes among which no character reference starts stand as they are.
pub proof fn lemma_unescape_literal(
    table: Map<Seq<u8>, Seq<u8>>,
    s: Seq<u8>,
    context: Context,
    count: int,
)
    requires
        0 <= count <= s.len(),
        forall|at: int| 0 <= at < count ==> !is_reference_at(table, s, context, at),
    ensures
        unescape_bytes(table, s, context) == s.take(count) + unescape_bytes(
            table,
            s.skip(count),
            context,
        ),
    decreases count,
{
    if count == 0 {
        assert(s.skip(0) =~= s);
    } else {
        let rest = s.skip(1);
        assert(!is_reference_at(table, s, context, 0));
        assert(s.skip(0) =~= s);
        assert forall|at: int| 0 <= at < count - 1 implies !is_reference_at(
            table,
            rest,
            context,
            at,
        ) by {
            assert(!is_reference_at(table, s, context, at + 1));
            assert(rest.skip(at) =~= s.skip(at + 1));
        }
        lemma_unescape_literal(table, rest, context, count - 1);
        assert(rest.skip(count - 1) =~= s.skip(count));
    }
}

/// Text without a character reference unescapes to itself.
pub proof fn lemma_unescape_unchanged(table: Map<Seq<u8>, Seq<u8>>, s: Seq<u8>, context: Context)
    requires
        !has_reference(table, s, context),
    ensures
        unescape_bytes(table, s, context) == s,
{
    lemma_unescape_literal(table, s, context, s.len() as int);
}

} // verus!
