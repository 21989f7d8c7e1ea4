//! Named character references: `&amp;`, `&times` and the like.

use crate::bytes::is_ascii_alphanumeric;
use crate::cursor::{assert_next_eq, peek, peek_at, peek_n, Cursor};
use crate::table::{
    entity_table, get_entity, BARE_ENTITY_MAX_LENGTH, ENTITY_MAX_LENGTH, ENTITY_MIN_LENGTH,
};
use crate::unescape::model::{
    alphanumeric_run, candidate_len, expansion_view, first_bare, is_closed, match_found,
    match_numeric, match_reference, matched_as, name_len, AMPERSAND, EQUALS, HASH, SEMICOLON,
};
use crate::unescape::numeric::match_numeric_entity;
use crate::unescape::Context;
use std::borrow::Cow;
use vstd::prelude::*;
use vstd::slice::slice_subrange;

verus! {

/// Moves the cursor, which stands in front of a `&`, behind the name that
/// starts there: behind the `&` and the letters and digits that follow it,
/// as far as the longest name of the table could reach.
pub fn find_longest_candidate(iter: &mut Cursor)
    requires
        peek_at(old(iter)@, 0) == Some(AMPERSAND),
    ensures
        name_len(old(iter)@) <= old(iter)@.len(),
        final(iter)@ == old(iter)@.skip(name_len(old(iter)@) as int),
{
    let ghost input = iter@;
    assert_next_eq(iter, Some(AMPERSAND));
    // The `&` has been counted.
    let mut taken: usize = 1;
    let mut more = true;
    while more && taken < ENTITY_MAX_LENGTH
        invariant
            input == old(iter)@,
            1 <= taken <= ENTITY_MAX_LENGTH,
            taken <= input.len(),
            iter@ == input.skip(taken as int),
            alphanumeric_run(input.skip(1), (ENTITY_MAX_LENGTH - 1) as nat) == (taken - 1)
                + alphanumeric_run(iter@, (ENTITY_MAX_LENGTH - taken) as nat),
            !more ==> alphanumeric_run(iter@, (ENTITY_MAX_LENGTH - taken) as nat) == 0,
        decreases ENTITY_MAX_LENGTH - taken + if more { 1int } else { 0int },
    {
        match peek(iter) {
            Some(byte) => {
                if is_ascii_alphanumeric(byte) {
                    let _ = iter.next();
                    taken += 1;
                } else {
                    more = false;
                }
            },
            None => {
                more = false;
            },
        }
    }
}

/// Matches the character reference that the cursor stands in front of, by
/// looking candidates up in the entity table. With a match the cursor is
/// moved behind the reference; without one it is moved behind the `&`.
///
/// A numeric reference is handed on to [`match_numeric_entity`]. For a named
/// one, the letters and digits behind the `&` make the candidate, together
/// with a `;` that follows them. The candidate with its `;` is looked up
/// first; failing that, its starts are, from the shortest on. In an
/// attribute value a reference without `;` is left alone when `=` or a
/// letter or digit follows it.
pub fn match_entity_slow(iter: &mut Cursor, context: Context) -> (expansion: Option<
    Cow<'static, [u8]>,
>)
    requires
        peek_at(old(iter)@, 0) == Some(AMPERSAND),
    ensures
        matched_as(
            old(iter)@,
            final(iter)@,
            expansion_view(expansion),
            match_reference(entity_table(), old(iter)@, context),
        ),
{
    match peek_n(iter, 1) {
        Some(second) => {
            if second == HASH {
                return match_numeric_entity(iter);
            }
        },
        None => {},
    }
    let ghost input = iter@;
    let raw = iter.as_slice();
    let at_ampersand = *iter;

    find_longest_candidate(iter);
    let has_semicolon = match peek(iter) {
        Some(next) => next == SEMICOLON,
        None => false,
    };
    if has_semicolon {
        assert_next_eq(iter, Some(SEMICOLON));
    }
    assert(iter@ =~= input.skip(candidate_len(input) as int));

    let candidate = slice_subrange(raw, 0, raw.len() - iter.len());
    if candidate.len() < ENTITY_MIN_LENGTH {
        *iter = at_ampersand;
        iter.advance(1);
        return None;
    }
    if has_semicolon {
        match get_entity(candidate) {
            Some(bytes) => {
                return Some(Cow::Borrowed(bytes));
            },
            None => {},
        }
    }
    let longest = if candidate.len() < BARE_ENTITY_MAX_LENGTH {
        candidate.len()
    } else {
        BARE_ENTITY_MAX_LENGTH
    };
    let mut check_len = ENTITY_MIN_LENGTH;
    while check_len <= longest
        invariant
            ENTITY_MIN_LENGTH <= check_len <= longest + 1,
            candidate@.len() <= input.len(),
            longest == if candidate@.len() < BARE_ENTITY_MAX_LENGTH {
                candidate@.len()
            } else {
                BARE_ENTITY_MAX_LENGTH as nat
            },
            candidate@ == input.take(candidate@.len() as int),
            at_ampersand@ == input,
            input == old(iter)@,
            candidate@.len() >= ENTITY_MIN_LENGTH,
            peek_at(input, 0) == Some(AMPERSAND),
            peek_at(input, 1) != Some(HASH),
            candidate@.len() == candidate_len(input),
            has_semicolon == is_closed(input),
            !(has_semicolon && entity_table().contains_key(candidate@)),
            first_bare(entity_table(), input, ENTITY_MIN_LENGTH as nat, longest as nat)
                == first_bare(entity_table(), input, check_len as nat, longest as nat),
        decreases longest + 1 - check_len,
    {
        let shorter = slice_subrange(candidate, 0, check_len);
        assert(shorter@ =~= input.take(check_len as int));
        match get_entity(shorter) {
            Some(bytes) => {
                *iter = at_ampersand;
                let rejected = match context {
                    Context::Attribute => match peek_n(iter, check_len) {
                        Some(next) => next == EQUALS || is_ascii_alphanumeric(next),
                        None => false,
                    },
                    Context::General => false,
                };
                if rejected {
                    iter.advance(1);
                    return None;
                }
                iter.advance(check_len);
                return Some(Cow::Borrowed(bytes));
            },
            None => {},
        }
        check_len += 1;
    }
    *iter = at_ampersand;
    iter.advance(1);
    None
}

/// Matches the character reference that the cursor stands in front of, by
/// a matcher of names that is handed in, such as one that was generated
/// from the entity table. With a match the cursor is moved behind the
/// reference; without one it is moved behind the `&`.
///
/// A numeric reference is handed on to [`match_numeric_entity`]. For a named
/// one, `entity_matcher` is asked once, with the input from the `&` on, and
/// answers as [`match_found`] says.
pub fn match_entity_fast<F>(iter: &mut Cursor, context: Context, entity_matcher: F) -> (expansion:
    Option<Cow<'static, [u8]>>)
    where F: Fn(&[u8]) -> (Option<(bool, &'static [u8])>, usize)
    requires
        peek_at(old(iter)@, 0) == Some(AMPERSAND),
        forall|input: &[u8]| entity_matcher.requires((input,)),
    ensures
        peek_at(old(iter)@, 1) == Some(HASH) ==> matched_as(
            old(iter)@,
            final(iter)@,
            expansion_view(expansion),
            match_numeric(old(iter)@),
        ),
        peek_at(old(iter)@, 1) != Some(HASH) ==> exists|
            input: &[u8],
            found: (Option<(bool, &'static [u8])>, usize),
        |
            input@ == old(iter)@ && #[trigger] entity_matcher.ensures((input,), found)
                && matched_as(
                old(iter)@,
                final(iter)@,
                expansion_view(expansion),
                match_found(found, old(iter)@, context),
            ),
{
    match peek_n(iter, 1) {
        Some(second) => {
            if second == HASH {
                return match_numeric_entity(iter);
            }
        },
        None => {},
    }
    let input = iter.as_slice();
    let found = entity_matcher(input);
    let consumed = found.1;
    match found.0 {
        Some((closed, bytes)) => {
            if consumed == 0 || consumed > input.len() {
                iter.advance(1);
                return None;
            }
            let rejected = !closed && match context {
                Context::Attribute => match peek_n(iter, consumed) {
                    Some(next) => next == EQUALS || is_ascii_alphanumeric(next),
                    None => false,
                },
                Context::General => false,
            };
            if rejected {
                iter.advance(1);
                None
            } else {
                iter.advance(consumed);
                Some(Cow::Borrowed(bytes))
            }
        },
        None => {
            iter.advance(1);
            None
        },
    }
}

} // verus!
