//! What escaping and unescaping owe each other.

use crate::bytes::is_alphanumeric;
use crate::escape::{entity_for, escape_bytes, is_special, Mode};
use crate::table::{
    ends_closed, entity_table, is_well_formed, names_prefix_free, BARE_ENTITY_MAX_LENGTH,
    ENTITY_MAX_LENGTH, ENTITY_MIN_LENGTH,
};
use crate::unescape::model::{
    alphanumeric_run, candidate_len, first_bare, has_reference, lemma_alphanumeric_run_bound,
    lemma_first_bare, match_found, match_named, match_reference, unescape_bytes, Reference,
    AMPERSAND, SEMICOLON,
};
use crate::unescape::Context;
use vstd::prelude::*;
use vstd::utf8::encode_utf8;

verus! {

/// Whether `name` has the shape of a closed entity name: a `&`, then
/// letters and digits, at least one, then a `;`, and no longer than the
/// longest name of the table.
pub open spec fn is_closed_name(name: Seq<u8>) -> bool {
    &&& ENTITY_MIN_LENGTH <= name.len() <= ENTITY_MAX_LENGTH
    &&& name[0] == AMPERSAND
    &&& name.last() == SEMICOLON
    &&& forall|i: int| 1 <= i < name.len() - 1 ==> is_alphanumeric(#[trigger] name[i])
}

/// Letters and digits in front of a byte that is neither are a whole run.
proof fn lemma_run_stops(name: Seq<u8>, rest: Seq<u8>, limit: nat)
    requires
        name.len() <= limit,
        forall|i: int| 0 <= i < name.len() ==> is_alphanumeric(#[trigger] name[i]),
        rest.len() > 0,
        !is_alphanumeric(rest[0]),
    ensures
        alphanumeric_run(name + rest, limit) == name.len(),
    decreases name.len(),
{
    if name.len() > 0 {
        let shorter = name.skip(1);
        assert((name + rest).skip(1) =~= shorter + rest);
        lemma_run_stops(shorter, rest, (limit - 1) as nat);
    }
}

/// A closed entity takes priority: where the input starts with a closed
/// name of the table, that name is matched whole, in either context and
/// whatever follows it.
pub proof fn lemma_closed_entity_matches(
    table: Map<Seq<u8>, Seq<u8>>,
    name: Seq<u8>,
    rest: Seq<u8>,
    context: Context,
)
    requires
        is_closed_name(name),
        table.contains_key(name),
    ensures
        match_reference(table, name + rest, context) == Some(
            Reference { consumed: name.len(), expansion: table[name] },
        ),
{
    let s = name + rest;
    let letters = name.subrange(1, name.len() - 1);
    let tail = seq![SEMICOLON] + rest;
    assert(s.skip(1) =~= letters + tail);
    lemma_run_stops(letters, tail, (ENTITY_MAX_LENGTH - 1) as nat);
    assert(s.take(name.len() as int) =~= name);
}

/// Taking the shortest bare name that fits is taking the only one: where no
/// name without a `;` starts another, a start of `s` that is such a name is
/// the one that the search finds.
pub proof fn lemma_bare_match_unique(
    table: Map<Seq<u8>, Seq<u8>>,
    s: Seq<u8>,
    from: nat,
    to: nat,
    len: nat,
)
    requires
        names_prefix_free(table, false),
        1 <= from <= len <= to <= s.len(),
        forall|i: int| from - 1 <= i < to ==> s[i] != SEMICOLON,
        table.contains_key(s.take(len as int)),
    ensures
        first_bare(table, s, from, to) == Some(len),
{
    lemma_first_bare(table, s, from, to);
    let found = first_bare(table, s, from, to).unwrap();
    if found < len {
        let shorter = s.take(found as int);
        let longer = s.take(len as int);
        assert(longer.take(found as int) =~= shorter);
    }
}

/// Whether `found` is the answer of a matcher that takes the longest name
/// of `table` that `s` starts with.
pub open spec fn is_longest_match(
    table: Map<Seq<u8>, Seq<u8>>,
    s: Seq<u8>,
    found: (Option<(bool, &'static [u8])>, usize),
) -> bool {
    match found.0 {
        Some((closed, expansion)) => {
            &&& 1 <= found.1 <= s.len()
            &&& table.contains_key(s.take(found.1 as int))
            &&& expansion@ == table[s.take(found.1 as int)]
            &&& closed == ends_closed(s.take(found.1 as int))
            &&& forall|len: int|
                found.1 < len <= s.len() ==> !table.contains_key(#[trigger] s.take(len))
        },
        None => forall|len: int|
            0 <= len <= s.len() ==> !table.contains_key(#[trigger] s.take(len)),
    }
}

/// Letters and digits are counted as far as the limit allows.
proof fn lemma_run_covers(s: Seq<u8>, limit: nat, count: nat)
    requires
        count <= limit,
        count <= s.len(),
        forall|i: int| 0 <= i < count ==> is_alphanumeric(#[trigger] s[i]),
    ensures
        alphanumeric_run(s, limit) >= count,
    decreases count,
{
    if count > 0 {
        let rest = s.skip(1);
        lemma_run_covers(rest, (limit - 1) as nat, (count - 1) as nat);
    }
}

/// Taking the longest name gives what matching gives: for a table that is
/// made as matching expects, a matcher that answers with the longest name
/// that the input starts with finds the reference that is found by looking
/// the candidate up first and then its starts, from the shortest on.
pub proof fn lemma_longest_match_agrees(
    table: Map<Seq<u8>, Seq<u8>>,
    s: Seq<u8>,
    context: Context,
    found: (Option<(bool, &'static [u8])>, usize),
)
    requires
        s.len() > 0,
        is_well_formed(table),
        is_longest_match(table, s, found),
    ensures
        match_found(found, s, context) == match_named(table, s, context),
{
    let limit = (ENTITY_MAX_LENGTH - 1) as nat;
    let behind = s.skip(1);
    lemma_alphanumeric_run_bound(behind, limit);
    let len = candidate_len(s);
    let longest = if len < BARE_ENTITY_MAX_LENGTH {
        len
    } else {
        BARE_ENTITY_MAX_LENGTH as nat
    };
    lemma_first_bare(table, s, ENTITY_MIN_LENGTH as nat, longest);
    match found.0 {
        Some((closed, expansion)) => {
            let taken = found.1 as nat;
            let name = s.take(taken as int);
            if name.last() == SEMICOLON {
                let letters = behind.take(taken - 2);
                let tail = behind.skip(taken - 2);
                assert(behind =~= letters + tail);
                assert forall|i: int| 0 <= i < letters.len() implies is_alphanumeric(
                    #[trigger] letters[i],
                ) by {
                    assert(letters[i] == name[i + 1]);
                }
                lemma_run_stops(letters, tail, limit);
            } else {
                assert forall|i: int| 0 <= i < taken - 1 implies is_alphanumeric(
                    #[trigger] behind[i],
                ) by {
                    assert(behind[i] == name[i + 1]);
                }
                lemma_run_covers(behind, limit, (taken - 1) as nat);
                match first_bare(table, s, ENTITY_MIN_LENGTH as nat, longest) {
                    Some(bare) => {
                        if bare < taken {
                            let shorter = s.take(bare as int);
                            assert(name.take(bare as int) =~= shorter);
                        }
                    },
                    None => {},
                }
            }
        },
        None => {},
    }
}

/// What is expanded in an attribute value is expanded alike outside of
/// one: the rules for attribute values only ever leave a reference alone.
pub proof fn lemma_attribute_match_is_general(table: Map<Seq<u8>, Seq<u8>>, s: Seq<u8>)
    ensures
        match_reference(table, s, Context::Attribute) is Some ==> match_reference(
            table,
            s,
            Context::Attribute,
        ) == match_reference(table, s, Context::General),
{
}

/// Text without a `&` holds no character reference.
pub proof fn lemma_no_ampersand_no_reference(
    table: Map<Seq<u8>, Seq<u8>>,
    s: Seq<u8>,
    context: Context,
)
    requires
        forall|i: int| 0 <= i < s.len() ==> s[i] != AMPERSAND,
    ensures
        !has_reference(table, s, context),
        unescape_bytes(table, s, context) == s,
{
    crate::unescape::model::lemma_unescape_unchanged(table, s, context);
}

/// Whether `table` expands the entity of each byte that is escaped in
/// `mode` to that byte.
pub open spec fn decodes_escapes(table: Map<Seq<u8>, Seq<u8>>, mode: Mode) -> bool {
    forall|b: u8| #[trigger]
        is_special(b, mode) ==> table.contains_key(entity_for(b)) && table[entity_for(b)]
            == seq![b]
}

/// Unescaping by any table that expands what escaping writes undoes
/// escaping: for every text `s`, in every mode and in either context, the
/// escaped text unescapes to `s`.
pub proof fn lemma_unescape_escaped(
    table: Map<Seq<u8>, Seq<u8>>,
    s: Seq<u8>,
    mode: Mode,
    context: Context,
)
    requires
        decodes_escapes(table, mode),
    ensures
        unescape_bytes(table, escape_bytes(s, mode), context) == s,
    decreases s.len(),
{
    if s.len() > 0 {
        let b = s[0];
        let rest = escape_bytes(s.skip(1), mode);
        let escaped = escape_bytes(s, mode);
        lemma_unescape_escaped(table, s.skip(1), mode, context);
        if is_special(b, mode) {
            let name = entity_for(b);
            lemma_closed_entity_matches(table, name, rest, context);
            assert(escaped.skip(name.len() as int) =~= rest);
        } else {
            assert(escaped.skip(1) =~= rest);
        }
    }
}

/// The entity table expands what escaping writes, in every mode.
pub proof fn lemma_table_decodes_escapes(mode: Mode)
    ensures
        decodes_escapes(entity_table(), mode),
{
}

/// Unescaping undoes escaping: every text `s`, escaped in whichever mode,
/// unescapes to `s` again, in either context.
pub proof fn lemma_unescape_undoes_escape(s: Seq<u8>, mode: Mode, context: Context)
    ensures
        unescape_bytes(entity_table(), escape_bytes(s, mode), context) == s,
{
    lemma_table_decodes_escapes(mode);
    lemma_unescape_escaped(entity_table(), s, mode, context);
}

/// The same of strings: a text that encodes what the escaped text
/// unescapes to is the text that was escaped.
pub proof fn lemma_unescape_undoes_escape_text(
    text: Seq<char>,
    escaped: Seq<char>,
    unescaped: Seq<char>,
    mode: Mode,
    context: Context,
)
    requires
        encode_utf8(escaped) == escape_bytes(encode_utf8(text), mode),
        encode_utf8(unescaped) == unescape_bytes(entity_table(), encode_utf8(escaped), context),
    ensures
        unescaped == text,
{
    lemma_unescape_undoes_escape(encode_utf8(text), mode, context);
    vstd::utf8::encode_utf8_decode_utf8(unescaped);
    vstd::utf8::encode_utf8_decode_utf8(text);
}

} // verus!
