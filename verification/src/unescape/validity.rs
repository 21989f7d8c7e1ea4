//! Unescaping keeps valid UTF-8 valid: a character reference is made of
//! ASCII bytes, and what replaces it is text.

use crate::bytes::is_alphanumeric;
use crate::table::{entity_table, BARE_ENTITY_MAX_LENGTH, ENTITY_MAX_LENGTH, ENTITY_MIN_LENGTH};
use crate::text::{
    lemma_encode_scalar_valid, lemma_first_character, lemma_skip_ascii_valid, starts_ascii,
};
use crate::unescape::model::{
    alphanumeric_run, candidate_len, code_point_for, digit_run, is_digit_of, is_hex_reference,
    is_reference_at, lemma_alphanumeric_run_bound, lemma_digit_run_bound, lemma_first_bare,
    lemma_reference_bound, lemma_unescape_literal, match_reference, name_len, unescape_bytes,
    AMPERSAND, HASH,
};
use crate::unescape::Context;
use vstd::prelude::*;
use vstd::utf8::{length_of_first_scalar, valid_utf8};

verus! {

/// Whether every expansion of `table` is valid UTF-8.
pub open spec fn expands_to_text(table: Map<Seq<u8>, Seq<u8>>) -> bool {
    forall|name: Seq<u8>| #[trigger] table.contains_key(name) ==> valid_utf8(table[name])
}

/// Every expansion of the entity table is valid UTF-8.
pub proof fn lemma_entity_table_text()
    ensures
        expands_to_text(entity_table()),
{
    assert forall|name: Seq<u8>| #[trigger] entity_table().contains_key(name) implies valid_utf8(
        entity_table()[name],
    ) by {
        match crate::table::markup_byte(name) {
            Some(byte) => {
                crate::text::lemma_ascii_valid(seq![byte]);
            },
            None => {
                let index = crate::table::first_index(name, 0).unwrap();
                vstd::utf8::encode_utf8_valid_utf8(crate::table::entity_characters(index));
            },
        }
    }
}

/// The bytes of a digit run are digits.
proof fn lemma_digit_run_digits(s: Seq<u8>, hex: bool)
    ensures
        forall|i: int| 0 <= i < digit_run(s, hex) ==> is_digit_of(#[trigger] s[i], hex),
    decreases s.len(),
{
    if s.len() > 0 && is_digit_of(s[0], hex) {
        let rest = s.skip(1);
        lemma_digit_run_digits(rest, hex);
        lemma_digit_run_bound(rest, hex);
        assert forall|i: int| 0 <= i < digit_run(s, hex) implies is_digit_of(
            #[trigger] s[i],
            hex,
        ) by {
            if i > 0 {
                assert(s[i] == rest[i - 1]);
            }
        }
    }
}

/// The bytes of a run of letters and digits are letters and digits.
proof fn lemma_alphanumeric_run_bytes(s: Seq<u8>, limit: nat)
    ensures
        forall|i: int| 0 <= i < alphanumeric_run(s, limit) ==> is_alphanumeric(#[trigger] s[i]),
    decreases limit,
{
    if limit > 0 && s.len() > 0 && is_alphanumeric(s[0]) {
        let rest = s.skip(1);
        lemma_alphanumeric_run_bytes(rest, (limit - 1) as nat);
        lemma_alphanumeric_run_bound(rest, (limit - 1) as nat);
        assert forall|i: int| 0 <= i < alphanumeric_run(s, limit) implies is_alphanumeric(
            #[trigger] s[i],
        ) by {
            if i > 0 {
                assert(s[i] == rest[i - 1]);
            }
        }
    }
}

/// What a numeric reference expands to is valid UTF-8.
proof fn lemma_numeric_expansion_valid(value: nat)
    ensures
        valid_utf8(crate::unescape::model::numeric_expansion(value)),
{
    lemma_encode_scalar_valid(code_point_for(value));
}

/// A character reference is made of ASCII bytes, and its expansion is
/// valid UTF-8 where those of the table are.
pub proof fn lemma_reference_text(table: Map<Seq<u8>, Seq<u8>>, s: Seq<u8>, context: Context)
    requires
        expands_to_text(table),
        s.len() > 0,
        s[0] == AMPERSAND,
        match_reference(table, s, context) is Some,
    ensures
        1 <= match_reference(table, s, context).unwrap().consumed <= s.len(),
        starts_ascii(s, match_reference(table, s, context).unwrap().consumed as int),
        valid_utf8(match_reference(table, s, context).unwrap().expansion),
{
    lemma_reference_bound(table, s, context);
    let found = match_reference(table, s, context).unwrap();
    if s.len() > 1 && s[1] == HASH {
        let hex = is_hex_reference(s);
        let start: int = if hex {
            3
        } else {
            2
        };
        let ahead = s.skip(start);
        let count = digit_run(ahead, hex);
        lemma_digit_run_digits(ahead, hex);
        assert forall|i: int| 0 <= i < found.consumed implies #[trigger] s[i] < 0x80 by {
            if start <= i < start + count {
                assert(s[i] == ahead[i - start]);
            }
        }
        lemma_numeric_expansion_valid(
            crate::unescape::model::digits_value(s.subrange(start, start + count), hex),
        );
    } else {
        let behind = s.skip(1);
        let limit = (ENTITY_MAX_LENGTH - 1) as nat;
        lemma_alphanumeric_run_bound(behind, limit);
        lemma_alphanumeric_run_bytes(behind, limit);
        let len = candidate_len(s);
        let longest = if len < BARE_ENTITY_MAX_LENGTH {
            len
        } else {
            BARE_ENTITY_MAX_LENGTH as nat
        };
        lemma_first_bare(table, s, ENTITY_MIN_LENGTH as nat, longest);
        assert forall|i: int| 0 <= i < len implies #[trigger] s[i] < 0x80 by {
            if 1 <= i < name_len(s) {
                assert(s[i] == behind[i - 1]);
            }
        }
    }
}

/// Unescaping keeps valid UTF-8 valid, where the expansions of the table
/// are valid UTF-8.
pub proof fn lemma_unescape_valid_utf8(table: Map<Seq<u8>, Seq<u8>>, s: Seq<u8>, context: Context)
    requires
        expands_to_text(table),
        valid_utf8(s),
    ensures
        valid_utf8(unescape_bytes(table, s, context)),
    decreases s.len(),
{
    if s.len() > 0 {
        if s[0] == AMPERSAND && match_reference(table, s, context) is Some {
            let found = match_reference(table, s, context).unwrap();
            lemma_reference_text(table, s, context);
            let rest = s.skip(found.consumed as int);
            lemma_skip_ascii_valid(s, found.consumed as int);
            lemma_unescape_valid_utf8(table, rest, context);
            vstd::utf8::valid_utf8_concat(found.expansion, unescape_bytes(table, rest, context));
        } else {
            lemma_first_character(s);
            let width = length_of_first_scalar(s);
            let rest = s.skip(width);
            lemma_unescape_valid_utf8(table, rest, context);
            assert forall|at: int| 0 <= at < width implies !is_reference_at(
                table,
                s,
                context,
                at,
            ) by {
                if at == 0 {
                    assert(s.skip(0) =~= s);
                }
            }
            lemma_unescape_literal(table, s, context, width);
            vstd::utf8::valid_utf8_concat(s.take(width), unescape_bytes(table, rest, context));
        }
    }
}

} // verus!
