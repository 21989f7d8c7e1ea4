//! The table of named character references.
//!
//! The names and their expansions are those of the `entities` crate, which
//! holds the WHATWG registry as a flat array. A name includes its leading
//! `&` and, for most entries, its trailing `;`. The five entities that
//! escaping writes are known without the registry, so that what was escaped
//! can always be unescaped.

use crate::bytes::{bytes_equal, is_alphanumeric, is_ascii_alphanumeric};
use crate::escape::{entity_for, map_u8};
use vstd::prelude::*;
use vstd::utf8::encode_utf8;

verus! {

/// Number of entries in the registry.
pub const ENTITY_COUNT: usize = 2231;

/// Length of the shortest name, with its `&`.
pub const ENTITY_MIN_LENGTH: usize = 3;

/// Length of the longest name, with its `&` and `;`.
pub const ENTITY_MAX_LENGTH: usize = 33;

/// Length of the longest name that lacks a `;`, with its `&`.
pub const BARE_ENTITY_MAX_LENGTH: usize = 7;

/// The name of the entry at `index`, as the `entities` crate spells it.
pub uninterp spec fn entity_name(index: usize) -> Seq<char>;

/// The text that the entry at `index` stands for.
pub uninterp spec fn entity_characters(index: usize) -> Seq<char>;

/// Reads the field `entity` of `entities::ENTITIES[index]`. The array has
/// `ENTITY_COUNT` entries; nothing is claimed about what the name holds.
#[verifier::external_body]
fn entity_name_at(index: usize) -> (name: &'static str)
    requires
        index < ENTITY_COUNT,
    ensures
        name@ == entity_name(index),
{
    ::entities::ENTITIES[index].entity
}

/// Reads the field `characters` of `entities::ENTITIES[index]`. The array
/// has `ENTITY_COUNT` entries; nothing is claimed about what the text holds.
#[verifier::external_body]
fn entity_characters_at(index: usize) -> (characters: &'static str)
    requires
        index < ENTITY_COUNT,
    ensures
        characters@ == entity_characters(index),
{
    ::entities::ENTITIES[index].characters
}

/// The bytes of the name of the entry at `index`.
pub open spec fn entity_key(index: usize) -> Seq<u8> {
    encode_utf8(entity_name(index))
}

/// The bytes that the entry at `index` expands to.
pub open spec fn entity_value(index: usize) -> Seq<u8> {
    encode_utf8(entity_characters(index))
}

/// The first entry at or after `from` whose name is `candidate`.
pub open spec fn first_index(candidate: Seq<u8>, from: usize) -> Option<usize>
    decreases ENTITY_COUNT - from,
{
    if from >= ENTITY_COUNT {
        None
    } else if entity_key(from) == candidate {
        Some(from)
    } else {
        first_index(candidate, (from + 1) as usize)
    }
}

/// The registry as a map from the bytes of a name to the bytes of its
/// expansion. Where the array names an entity twice, the first entry counts.
pub open spec fn registry() -> Map<Seq<u8>, Seq<u8>> {
    Map::new(
        |candidate: Seq<u8>| first_index(candidate, 0) is Some,
        |candidate: Seq<u8>| entity_value(first_index(candidate, 0).unwrap()),
    )
}

/// The byte that `name` stands for, where `name` is one of the five
/// entities that escaping writes: `&amp;`, `&lt;`, `&gt;`, `&quot;` and
/// `&apos;`.
pub open spec fn markup_byte(name: Seq<u8>) -> Option<u8> {
    if name == entity_for(0x26) {
        Some(0x26u8)
    } else if name == entity_for(0x3C) {
        Some(0x3Cu8)
    } else if name == entity_for(0x3E) {
        Some(0x3Eu8)
    } else if name == entity_for(0x22) {
        Some(0x22u8)
    } else if name == entity_for(0x27) {
        Some(0x27u8)
    } else {
        None
    }
}

/// The table that unescaping goes by, as a map from the bytes of a name to
/// the bytes of its expansion: the registry, in which the five entities
/// that escaping writes stand for what escaping wrote them for.
pub open spec fn entity_table() -> Map<Seq<u8>, Seq<u8>> {
    Map::new(
        |candidate: Seq<u8>| markup_byte(candidate) is Some || registry().contains_key(candidate),
        |candidate: Seq<u8>|
            match markup_byte(candidate) {
                Some(byte) => seq![byte],
                None => registry()[candidate],
            },
    )
}

/// A name is in the registry exactly when some entry spells it.
pub proof fn lemma_registry_domain(candidate: Seq<u8>)
    ensures
        registry().contains_key(candidate) <==> exists|index: usize|
            index < ENTITY_COUNT && #[trigger] entity_key(index) == candidate,
{
    lemma_first_index(candidate, 0);
}

/// `first_index` finds an entry exactly when there is one to find, and finds
/// the first.
proof fn lemma_first_index(candidate: Seq<u8>, from: usize)
    ensures
        match first_index(candidate, from) {
            Some(found) => from <= found < ENTITY_COUNT && entity_key(found) == candidate,
            None => forall|index: usize|
                from <= index < ENTITY_COUNT ==> #[trigger] entity_key(index) != candidate,
        },
    decreases ENTITY_COUNT - from,
{
    if from < ENTITY_COUNT && entity_key(from) != candidate {
        lemma_first_index(candidate, (from + 1) as usize);
    }
}

/// The byte that `candidate` stands for, as a text of its own, where
/// `candidate` is one of the entities that escaping writes.
fn markup_entity(candidate: &[u8]) -> (expansion: Option<&'static [u8]>)
    ensures
        match expansion {
            Some(bytes) => markup_byte(candidate@) is Some && bytes@ == seq![
                markup_byte(candidate@).unwrap(),
            ],
            None => markup_byte(candidate@) is None,
        },
{
    if bytes_equal(candidate, map_u8(0x26)) {
        let bytes: &'static [u8] = &[0x26u8];
        Some(bytes)
    } else if bytes_equal(candidate, map_u8(0x3C)) {
        let bytes: &'static [u8] = &[0x3Cu8];
        Some(bytes)
    } else if bytes_equal(candidate, map_u8(0x3E)) {
        let bytes: &'static [u8] = &[0x3Eu8];
        Some(bytes)
    } else if bytes_equal(candidate, map_u8(0x22)) {
        let bytes: &'static [u8] = &[0x22u8];
        Some(bytes)
    } else if bytes_equal(candidate, map_u8(0x27)) {
        let bytes: &'static [u8] = &[0x27u8];
        Some(bytes)
    } else {
        None
    }
}

/// Looks `candidate` up in the table: the expansion of the entity with
/// exactly this name, `&` and `;` included, or `None` when there is none.
pub fn get_entity(candidate: &[u8]) -> (expansion: Option<&'static [u8]>)
    ensures
        match expansion {
            Some(bytes) => entity_table().contains_key(candidate@) && bytes@
                == entity_table()[candidate@],
            None => !entity_table().contains_key(candidate@),
        },
{
    match markup_entity(candidate) {
        Some(bytes) => {
            return Some(bytes);
        },
        None => {},
    }
    let mut index: usize = 0;
    while index < ENTITY_COUNT
        invariant
            index <= ENTITY_COUNT,
            markup_byte(candidate@) is None,
            first_index(candidate@, 0) == first_index(candidate@, index),
        decreases ENTITY_COUNT - index,
    {
        let name = entity_name_at(index);
        if bytes_equal(name.as_bytes(), candidate) {
            let characters = entity_characters_at(index);
            return Some(characters.as_bytes());
        }
        index += 1;
    }
    None
}

/// Whether `name` ends in `;`.
pub open spec fn ends_closed(name: Seq<u8>) -> bool {
    name.len() > 0 && name.last() == 0x3B
}

/// Whether `longer` starts with `shorter` and goes on behind it.
pub open spec fn is_strict_prefix(shorter: Seq<u8>, longer: Seq<u8>) -> bool {
    shorter.len() < longer.len() && longer.take(shorter.len() as int) == shorter
}

/// Whether no name of `table` is the start of another, longer one, among
/// the names that end in `;` where `closed` is set, and among those that do
/// not where it is not.
pub open spec fn names_prefix_free(table: Map<Seq<u8>, Seq<u8>>, closed: bool) -> bool {
    forall|name: Seq<u8>, other: Seq<u8>|
        #![trigger table.contains_key(name), table.contains_key(other)]
        table.contains_key(name) && table.contains_key(other) && ends_closed(name) == closed
            && ends_closed(other) == closed ==> !is_strict_prefix(other, name)
}

/// Whether `name` has the shape of an entity name: a `&`, then letters and
/// digits, then a `;` or, in a name short enough to go without, one more
/// letter or digit.
pub open spec fn is_name(name: Seq<u8>) -> bool {
    &&& ENTITY_MIN_LENGTH <= name.len() <= ENTITY_MAX_LENGTH
    &&& name[0] == 0x26
    &&& forall|i: int| 1 <= i < name.len() - 1 ==> is_alphanumeric(#[trigger] name[i])
    &&& (name.last() == 0x3B || (is_alphanumeric(name.last()) && name.len()
        <= BARE_ENTITY_MAX_LENGTH))
}

/// Whether `table` is made as matching expects: every name has the shape
/// of one, and no name without a `;` starts another.
pub open spec fn is_well_formed(table: Map<Seq<u8>, Seq<u8>>) -> bool {
    &&& forall|name: Seq<u8>| #[trigger] table.contains_key(name) ==> is_name(name)
    &&& names_prefix_free(table, false)
}

/// Number of names of the table, counting each entry of the registry and
/// the five entities that escaping writes.
pub const NAME_COUNT: usize = ENTITY_COUNT + 5;

/// The byte that the entity at place `place` among those that escaping
/// writes stands for.
pub open spec fn markup_at(place: int) -> u8 {
    if place == 0 {
        0x26
    } else if place == 1 {
        0x3C
    } else if place == 2 {
        0x3E
    } else if place == 3 {
        0x22
    } else {
        0x27
    }
}

/// The name with the number `number`: the entries of the registry come
/// first, then the entities that escaping writes.
pub open spec fn name_key(number: usize) -> Seq<u8> {
    if number < ENTITY_COUNT {
        entity_key(number)
    } else {
        entity_for(markup_at(number - ENTITY_COUNT))
    }
}

/// A name is in the table exactly when it has a number.
pub proof fn lemma_table_domain(candidate: Seq<u8>)
    ensures
        entity_table().contains_key(candidate) <==> exists|number: usize|
            number < NAME_COUNT && #[trigger] name_key(number) == candidate,
{
    lemma_first_index(candidate, 0);
    if entity_table().contains_key(candidate) {
        if markup_byte(candidate) is Some {
            let place: usize = if candidate == entity_for(0x26) {
                0
            } else if candidate == entity_for(0x3C) {
                1
            } else if candidate == entity_for(0x3E) {
                2
            } else if candidate == entity_for(0x22) {
                3
            } else {
                4
            };
            assert(name_key((ENTITY_COUNT + place) as usize) == candidate);
        } else {
            assert(name_key(first_index(candidate, 0).unwrap()) == candidate);
        }
    }
}

/// Whether the name with the number `other` does not start the name with
/// the number `number`, where both are of the kind asked for.
spec fn pair_prefix_free(number: usize, other: usize, closed: bool) -> bool {
    ends_closed(name_key(number)) == closed && ends_closed(name_key(other)) == closed
        ==> !is_strict_prefix(name_key(other), name_key(number))
}

/// The bytes of the name with the number `number`.
fn name_bytes(number: usize) -> (name: &'static [u8])
    requires
        number < NAME_COUNT,
    ensures
        name@ == name_key(number),
{
    if number < ENTITY_COUNT {
        entity_name_at(number).as_bytes()
    } else if number == ENTITY_COUNT {
        map_u8(0x26)
    } else if number == ENTITY_COUNT + 1 {
        map_u8(0x3C)
    } else if number == ENTITY_COUNT + 2 {
        map_u8(0x3E)
    } else if number == ENTITY_COUNT + 3 {
        map_u8(0x22)
    } else {
        map_u8(0x27)
    }
}

/// Whether `longer` starts with `shorter` and goes on behind it.
fn starts_with_shorter(shorter: &[u8], longer: &[u8]) -> (yes: bool)
    ensures
        yes == is_strict_prefix(shorter@, longer@),
{
    if shorter.len() >= longer.len() {
        return false;
    }
    let mut i: usize = 0;
    while i < shorter.len()
        invariant
            shorter@.len() < longer@.len(),
            i <= shorter@.len(),
            forall|j: int| 0 <= j < i ==> shorter@[j] == longer@[j],
        decreases shorter@.len() - i,
    {
        if shorter[i] != longer[i] {
            return false;
        }
        i += 1;
    }
    assert(longer@.take(shorter@.len() as int) =~= shorter@);
    true
}

/// Whether `name` ends in `;`.
fn ends_with_semicolon(name: &[u8]) -> (yes: bool)
    ensures
        yes == ends_closed(name@),
{
    name.len() > 0 && name[name.len() - 1] == 0x3B
}

/// Checks the table for names that start other names of their kind: `true`
/// means that there is none. Matching relies on this of the names without a
/// `;`, of which the shortest that fits is taken.
pub fn table_names_prefix_free(closed: bool) -> (yes: bool)
    ensures
        yes == names_prefix_free(entity_table(), closed),
{
    let mut number: usize = 0;
    while number < NAME_COUNT
        invariant
            number <= NAME_COUNT,
            forall|a: usize, b: usize|
                a < number && b < NAME_COUNT ==> #[trigger] pair_prefix_free(a, b, closed),
        decreases NAME_COUNT - number,
    {
        let name = name_bytes(number);
        if ends_with_semicolon(name) == closed {
            let mut other: usize = 0;
            while other < NAME_COUNT
                invariant
                    number < NAME_COUNT,
                    other <= NAME_COUNT,
                    name@ == name_key(number),
                    ends_closed(name@) == closed,
                    forall|b: usize| b < other ==> #[trigger] pair_prefix_free(number, b, closed),
                decreases NAME_COUNT - other,
            {
                let start = name_bytes(other);
                if ends_with_semicolon(start) == closed && starts_with_shorter(start, name) {
                    proof {
                        lemma_table_domain(name@);
                        lemma_table_domain(start@);
                    }
                    return false;
                }
                other += 1;
            }
        }
        number += 1;
    }
    assert forall|name: Seq<u8>, other: Seq<u8>|
        #![trigger entity_table().contains_key(name), entity_table().contains_key(other)]
        entity_table().contains_key(name) && entity_table().contains_key(other) && ends_closed(
            name,
        ) == closed && ends_closed(other) == closed implies !is_strict_prefix(other, name) by {
        lemma_table_domain(name);
        lemma_table_domain(other);
        let a = choose|a: usize| a < NAME_COUNT && #[trigger] name_key(a) == name;
        let b = choose|b: usize| b < NAME_COUNT && #[trigger] name_key(b) == other;
        assert(pair_prefix_free(a, b, closed));
    }
    true
}

/// Whether `name` has the shape of an entity name.
fn has_name_shape(name: &[u8]) -> (yes: bool)
    ensures
        yes == is_name(name@),
{
    if name.len() < ENTITY_MIN_LENGTH || name.len() > ENTITY_MAX_LENGTH || name[0] != 0x26 {
        return false;
    }
    let last = name.len() - 1;
    let mut i: usize = 1;
    while i < last
        invariant
            1 <= i <= last,
            last == name@.len() - 1,
            forall|j: int| 1 <= j < i ==> is_alphanumeric(#[trigger] name@[j]),
        decreases last - i,
    {
        if !is_ascii_alphanumeric(name[i]) {
            return false;
        }
        i += 1;
    }
    name[last] == 0x3B || (is_ascii_alphanumeric(name[last]) && name.len()
        <= BARE_ENTITY_MAX_LENGTH)
}

/// Checks that the table is made as matching expects: `true` means that
/// every name has the shape of one and that no name without a `;` starts
/// another.
pub fn table_is_well_formed() -> (yes: bool)
    ensures
        yes == is_well_formed(entity_table()),
{
    let mut number: usize = 0;
    while number < NAME_COUNT
        invariant
            number <= NAME_COUNT,
            forall|before: usize| before < number ==> is_name(#[trigger] name_key(before)),
        decreases NAME_COUNT - number,
    {
        let name = name_bytes(number);
        if !has_name_shape(name) {
            proof {
                lemma_table_domain(name@);
            }
            return false;
        }
        number += 1;
    }
    assert forall|name: Seq<u8>| #[trigger] entity_table().contains_key(name) implies is_name(
        name,
    ) by {
        lemma_table_domain(name);
    }
    table_names_prefix_free(false)
}

/// The entry of the registry at `index`: the bytes of its name and of its
/// expansion.
pub fn entity_at(index: usize) -> (entry: (&'static [u8], &'static [u8]))
    requires
        index < ENTITY_COUNT,
    ensures
        entry.0@ == entity_key(index),
        entry.1@ == entity_value(index),
{
    (entity_name_at(index).as_bytes(), entity_characters_at(index).as_bytes())
}

} // verus!
