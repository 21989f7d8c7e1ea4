use htmlize::table::{
    entity_at, get_entity, table_is_well_formed, table_names_prefix_free, ENTITY_COUNT,
};
use htmlize::{BARE_ENTITY_MAX_LENGTH, ENTITY_MAX_LENGTH, ENTITY_MIN_LENGTH};

#[test]
fn entity_count_is_that_of_the_array() {
    assert_eq!(entities::ENTITIES.len(), ENTITY_COUNT);
}

#[test]
fn entity_at_reads_the_array() {
    for index in 0..ENTITY_COUNT {
        let (name, expansion) = entity_at(index);
        assert_eq!(name, entities::ENTITIES[index].entity.as_bytes());
        assert_eq!(expansion, entities::ENTITIES[index].characters.as_bytes());
    }
}

#[test]
fn length_constants_fit_the_table() {
    let mut shortest = usize::MAX;
    let mut longest = 0;
    let mut longest_bare = 0;
    for index in 0..ENTITY_COUNT {
        let (name, _) = entity_at(index);
        shortest = shortest.min(name.len());
        longest = longest.max(name.len());
        if !name.ends_with(b";") {
            longest_bare = longest_bare.max(name.len());
        }
    }
    assert_eq!(shortest, ENTITY_MIN_LENGTH);
    assert_eq!(longest, ENTITY_MAX_LENGTH);
    assert_eq!(longest_bare, BARE_ENTITY_MAX_LENGTH);
    assert_eq!(ENTITY_MIN_LENGTH, 3);
    assert_eq!(ENTITY_MAX_LENGTH, 33);
    assert_eq!(BARE_ENTITY_MAX_LENGTH, 7);
}

#[test]
fn names_are_ampersand_letters_and_digits() {
    for index in 0..ENTITY_COUNT {
        let (name, _) = entity_at(index);
        assert_eq!(name[0], b'&');
        let inner = match name.strip_suffix(b";") {
            Some(open) => &open[1..],
            None => &name[1..],
        };
        assert!(!inner.is_empty());
        assert!(inner.iter().all(|b| b.is_ascii_alphanumeric()));
    }
}

#[test]
fn every_bare_name_has_a_closed_twin() {
    for index in 0..ENTITY_COUNT {
        let (name, expansion) = entity_at(index);
        if !name.ends_with(b";") {
            let mut closed = name.to_vec();
            closed.push(b';');
            assert_eq!(get_entity(&closed), Some(expansion));
        }
    }
}

#[test]
fn get_entity_finds_every_entry() {
    for index in 0..ENTITY_COUNT {
        let (name, expansion) = entity_at(index);
        assert_eq!(get_entity(name), Some(expansion));
    }
}

#[test]
fn get_entity_known_names() {
    assert_eq!(get_entity(b"&amp;"), Some(&b"&"[..]));
    assert_eq!(get_entity(b"&amp"), Some(&b"&"[..]));
    assert_eq!(get_entity(b"&AMP;"), Some(&b"&"[..]));
    assert_eq!(get_entity(b"&lt;"), Some(&b"<"[..]));
    assert_eq!(get_entity(b"&times;"), Some("×".as_bytes()));
    assert_eq!(get_entity(b"&times"), Some("×".as_bytes()));
    assert_eq!(get_entity(b"&timesb;"), Some("⊠".as_bytes()));
    assert_eq!(get_entity(b"&timesbar;"), Some("⨱".as_bytes()));
    assert_eq!(
        get_entity(b"&CounterClockwiseContourIntegral;"),
        Some("∳".as_bytes())
    );
    assert_eq!(get_entity(b"&nGt;"), Some("≫⃒".as_bytes()));
}

#[test]
fn get_entity_is_exact() {
    assert_eq!(get_entity(b""), None);
    assert_eq!(get_entity(b"&"), None);
    assert_eq!(get_entity(b"&;"), None);
    assert_eq!(get_entity(b"amp;"), None);
    assert_eq!(get_entity(b"&amp;x"), None);
    assert_eq!(get_entity(b"&Amp;"), None);
    assert_eq!(get_entity(b"&timesb"), None);
    assert_eq!(get_entity(b"&time"), None);
    assert_eq!(get_entity(b"&times;;"), None);
}

#[test]
fn bare_entity_prefix_rule() {
    assert!(table_names_prefix_free(true));
    for index in 0..ENTITY_COUNT {
        let (name, _) = entity_at(index);
        if name.ends_with(b";") {
            for other in 0..ENTITY_COUNT {
                let (start, _) = entity_at(other);
                if start.ends_with(b";") {
                    assert!(!(name.starts_with(start) && name != start));
                }
            }
        }
    }
}

#[test]
fn no_bare_name_starts_another_bare_name() {
    assert!(table_names_prefix_free(false));
    for index in 0..ENTITY_COUNT {
        let (name, _) = entity_at(index);
        if !name.ends_with(b";") {
            for other in 0..ENTITY_COUNT {
                let (start, _) = entity_at(other);
                if !start.ends_with(b";") {
                    assert!(!(name.starts_with(start) && name != start));
                }
            }
        }
    }
}

#[test]
fn table_expands_what_escaping_writes() {
    let registered = |name: &str| {
        entities::ENTITIES.iter().find(|entry| entry.entity == name).map(|entry| entry.characters)
    };
    assert_eq!(registered("&amp;"), Some("&"));
    assert_eq!(registered("&lt;"), Some("<"));
    assert_eq!(registered("&gt;"), Some(">"));
    assert_eq!(registered("&quot;"), Some("\""));
    assert_eq!(registered("&apos;"), Some("'"));
    assert_eq!(get_entity(b"&amp;"), Some(&b"&"[..]));
    assert_eq!(get_entity(b"&lt;"), Some(&b"<"[..]));
    assert_eq!(get_entity(b"&gt;"), Some(&b">"[..]));
    assert_eq!(get_entity(b"&quot;"), Some(&b"\""[..]));
    assert_eq!(get_entity(b"&apos;"), Some(&b"'"[..]));
}

#[test]
fn table_is_made_as_matching_expects() {
    assert!(table_is_well_formed());
}
