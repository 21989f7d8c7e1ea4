use htmlize::cursor::Cursor;
use htmlize::unescape::named::match_entity_fast;
use htmlize::Context;

/// The longest name of the registry that `input` starts with.
fn entity_matcher(input: &[u8]) -> (Option<(bool, &'static [u8])>, usize) {
    let mut best: Option<&'static entities::Entity> = None;
    for entry in entities::ENTITIES.iter() {
        let longer = match best {
            Some(found) => entry.entity.len() > found.entity.len(),
            None => true,
        };
        if longer && input.starts_with(entry.entity.as_bytes()) {
            best = Some(entry);
        }
    }
    match best {
        Some(found) => (
            Some((found.entity.ends_with(';'), found.characters.as_bytes())),
            found.entity.len(),
        ),
        None => (None, 0),
    }
}

/// Unescapes `bytes` reference by reference, with the longest name taken.
fn unescape_bytes_fast(bytes: &[u8], context: Context) -> Vec<u8> {
    let mut output: Vec<u8> = Vec::new();
    let mut at = 0;
    while at < bytes.len() {
        if bytes[at] == b'&' {
            let mut iter = Cursor::new(&bytes[at..]);
            match match_entity_fast(&mut iter, context, entity_matcher) {
                Some(expansion) => output.extend_from_slice(&expansion),
                None => output.push(b'&'),
            }
            at = bytes.len() - iter.len();
        } else {
            output.push(bytes[at]);
            at += 1;
        }
    }
    output
}

fn unescape_fast(escaped: &str, context: Context) -> String {
    String::from_utf8(unescape_bytes_fast(escaped.as_bytes(), context)).unwrap()
}

fn fast(escaped: &str) -> String {
    unescape_fast(escaped, Context::General)
}

fn fast_attribute(escaped: &str) -> String {
    unescape_fast(escaped, Context::Attribute)
}

#[test]
fn fast_almost_entity() {
    assert!(fast("&time") == "&time");
}

#[test]
fn fast_attribute_almost_entity() {
    assert!(fast_attribute("&time") == "&time");
}

#[test]
fn fast_exact_times() {
    assert!(fast("&times;") == "×");
}

#[test]
fn fast_attribute_exact_times() {
    assert!(fast_attribute("&times;") == "×");
}

#[test]
fn fast_exact_timesb() {
    assert!(fast("&timesb;") == "⊠");
}

#[test]
fn fast_attribute_exact_timesb() {
    assert!(fast_attribute("&timesb;") == "⊠");
}

#[test]
fn fast_bare_times_end() {
    assert!(fast("&times") == "×");
}

#[test]
fn fast_attribute_bare_times_end() {
    assert!(fast_attribute("&times") == "×");
}

#[test]
fn fast_bare_times_bang() {
    assert!(fast("&times!") == "×!");
}

#[test]
fn fast_attribute_bare_times_bang() {
    assert!(fast_attribute("&times!") == "×!");
}

#[test]
fn fast_bare_entity_char() {
    assert!(fast("&timesa") == "×a");
}

#[test]
fn fast_other_entity() {
    assert!(fast("&timesbar;") == "⨱");
}

#[test]
fn fast_bare_entity_almost_other() {
    assert!(fast("&timesbar") == "×bar");
}

#[test]
fn fast_bare_entity_long_suffix() {
    assert!(fast("&timesbarrrrrr") == "×barrrrrr");
}

#[test]
fn fast_bare_entity_equal() {
    assert!(fast("&times=") == "×=");
}

#[test]
fn fast_bare_entity_char_semicolon() {
    assert!(fast("&timesa;") == "×a;");
}

#[test]
fn fast_bare_entity_equal_semicolon() {
    assert!(fast("&times=;") == "×=;");
}

#[test]
fn fast_bare_entity_entity() {
    assert!(fast("&times&lt;") == "×<");
}

#[test]
fn fast_attribute_bare_entity_entity() {
    assert!(fast_attribute("&times&lt;") == "×<");
}

#[test]
fn fast_bare_entity_char_is_prefix() {
    assert!(fast("&timesb") == "×b");
}

#[test]
fn fast_bare_entity_char_is_prefix_entity() {
    assert!(fast("&timesb&lt;") == "×b<");
}

#[test]
fn fast_attribute_bare_entity_char() {
    assert!(fast_attribute("&timesa") == "&timesa");
}

#[test]
fn fast_attribute_bare_entity_equal() {
    assert!(fast_attribute("&times=") == "&times=");
}

#[test]
fn fast_attribute_bare_entity_char_semicolon() {
    assert!(fast_attribute("&timesa;") == "&timesa;");
}

#[test]
fn fast_attribute_bare_entity_equal_semicolon() {
    assert!(fast_attribute("&times=;") == "&times=;");
}

#[test]
fn fast_attribute_bare_entity_char_is_prefix() {
    assert!(fast_attribute("&timesb") == "&timesb");
}

#[test]
fn fast_attribute_bare_entity_char_is_prefix_entity() {
    assert!(fast_attribute("&timesb&lt;") == "&timesb<");
}

#[test]
fn fast_empty() {
    assert!(fast("") == "");
}

#[test]
fn fast_attribute_empty() {
    assert!(fast_attribute("") == "");
}

#[test]
fn fast_no_entities() {
    assert!(fast("none") == "none");
}

#[test]
fn fast_attribute_no_entities() {
    assert!(fast_attribute("none") == "none");
}

#[test]
fn fast_only_ampersand() {
    assert!(fast("&") == "&");
}

#[test]
fn fast_attribute_only_ampersand() {
    assert!(fast_attribute("&") == "&");
}

#[test]
fn fast_empty_entity() {
    assert!(fast("&;") == "&;");
}

#[test]
fn fast_attribute_empty_entity() {
    assert!(fast_attribute("&;") == "&;");
}

#[test]
fn fast_invalid_entity() {
    assert!(fast("&time;") == "&time;");
}

#[test]
fn fast_attribute_invalid_entity() {
    assert!(fast_attribute("&time;") == "&time;");
}

#[test]
fn fast_middle_invalid_entity() {
    assert!(fast(" &time; ") == " &time; ");
}

#[test]
fn fast_attribute_middle_invalid_entity() {
    assert!(fast_attribute(" &time; ") == " &time; ");
}

#[test]
fn fast_mixed_valid_invalid_entities() {
    assert!(fast("&time; &amp; &time; &amp; &time;") == "&time; & &time; & &time;");
}

#[test]
fn fast_attribute_mixed_valid_invalid_entities() {
    assert!(fast_attribute("&time; &amp; &time; &amp; &time;") == "&time; & &time; & &time;");
}

#[test]
fn fast_middle_entity() {
    assert!(fast(" &amp; ") == " & ");
}

#[test]
fn fast_attribute_middle_entity() {
    assert!(fast_attribute(" &amp; ") == " & ");
}

#[test]
fn fast_extra_ampersands() {
    assert!(fast("&&amp;&") == "&&&");
}

#[test]
fn fast_attribute_extra_ampersands() {
    assert!(fast_attribute("&&amp;&") == "&&&");
}

#[test]
fn fast_two_entities() {
    assert!(fast("AND &amp;&AMP; and") == "AND && and");
}

#[test]
fn fast_attribute_two_entities() {
    assert!(fast_attribute("AND &amp;&AMP; and") == "AND && and");
}

#[test]
fn fast_long_valid_entity() {
    assert!(fast("&CounterClockwiseContourIntegral;") == "∳");
}

#[test]
fn fast_attribute_long_valid_entity() {
    assert!(fast_attribute("&CounterClockwiseContourIntegral;") == "∳");
}

#[test]
fn fast_long_invalid_entity() {
    assert!(fast("&CounterClockwiseContourIntegralX;") == "&CounterClockwiseContourIntegralX;");
}

#[test]
fn fast_attribute_long_invalid_entity() {
    assert!(fast_attribute("&CounterClockwiseContourIntegralX;") == "&CounterClockwiseContourIntegralX;");
}

#[test]
fn fast_very_long_invalid_entity() {
    assert!(fast("&aaaaaaaaaaaaaaaaaaaaaaaaaaaaaaaaaaaaaaaaaaaaaaaaaaaaaaaaaaaaaaaaaaaaaa;") == "&aaaaaaaaaaaaaaaaaaaaaaaaaaaaaaaaaaaaaaaaaaaaaaaaaaaaaaaaaaaaaaaaaaaaaa;");
}

#[test]
fn fast_attribute_very_long_invalid_entity() {
    assert!(fast_attribute("&aaaaaaaaaaaaaaaaaaaaaaaaaaaaaaaaaaaaaaaaaaaaaaaaaaaaaaaaaaaaaaaaaaaaaa;") == "&aaaaaaaaaaaaaaaaaaaaaaaaaaaaaaaaaaaaaaaaaaaaaaaaaaaaaaaaaaaaaaaaaaaaaa;");
}

#[test]
fn fast_correct_hex_lowerx_lower() {
    assert!(fast("&#x7a;") == "z");
}

#[test]
fn fast_attribute_correct_hex_lowerx_lower() {
    assert!(fast_attribute("&#x7a;") == "z");
}

#[test]
fn fast_correct_hex_lowerx_upper() {
    assert!(fast("&#x7A;") == "z");
}

#[test]
fn fast_attribute_correct_hex_lowerx_upper() {
    assert!(fast_attribute("&#x7A;") == "z");
}

#[test]
fn fast_correct_hex_upperx_lower() {
    assert!(fast("&#X7a;") == "z");
}

#[test]
fn fast_attribute_correct_hex_upperx_lower() {
    assert!(fast_attribute("&#X7a;") == "z");
}

#[test]
fn fast_correct_hex_upperx_upper() {
    assert!(fast("&#X7A;") == "z");
}

#[test]
fn fast_attribute_correct_hex_upperx_upper() {
    assert!(fast_attribute("&#X7A;") == "z");
}

#[test]
fn fast_correct_hex_leading_zero() {
    assert!(fast("&#x07a;") == "z");
}

#[test]
fn fast_attribute_correct_hex_leading_zero() {
    assert!(fast_attribute("&#x07a;") == "z");
}

#[test]
fn fast_correct_hex_leading_zero_zero() {
    assert!(fast("&#x007a;") == "z");
}

#[test]
fn fast_attribute_correct_hex_leading_zero_zero() {
    assert!(fast_attribute("&#x007a;") == "z");
}

#[test]
fn fast_correct_dec() {
    assert!(fast("&#122;") == "z");
}

#[test]
fn fast_attribute_correct_dec() {
    assert!(fast_attribute("&#122;") == "z");
}

#[test]
fn fast_correct_dec_leading_zero() {
    assert!(fast("&#0122;") == "z");
}

#[test]
fn fast_attribute_correct_dec_leading_zero() {
    assert!(fast_attribute("&#0122;") == "z");
}

#[test]
fn fast_correct_dec_leading_zero_zero() {
    assert!(fast("&#00122;") == "z");
}

#[test]
fn fast_attribute_correct_dec_leading_zero_zero() {
    assert!(fast_attribute("&#00122;") == "z");
}

#[test]
fn fast_correct_hex_unicode() {
    assert!(fast("&#x21D2;") == "⇒");
}

#[test]
fn fast_attribute_correct_hex_unicode() {
    assert!(fast_attribute("&#x21D2;") == "⇒");
}

#[test]
fn fast_bare_hex_char() {
    assert!(fast("&#x7Az") == "zz");
}

#[test]
fn fast_attribute_bare_hex_char() {
    assert!(fast_attribute("&#x7Az") == "zz");
}

#[test]
fn fast_bare_hex_entity() {
    assert!(fast("&#x7A&lt;") == "z<");
}

#[test]
fn fast_attribute_bare_hex_entity() {
    assert!(fast_attribute("&#x7A&lt;") == "z<");
}

#[test]
fn fast_bare_hex_end() {
    assert!(fast("&#x7A") == "z");
}

#[test]
fn fast_attribute_bare_hex_end() {
    assert!(fast_attribute("&#x7A") == "z");
}

#[test]
fn fast_bare_dec_char() {
    assert!(fast("&#122z") == "zz");
}

#[test]
fn fast_attribute_bare_dec_char() {
    assert!(fast_attribute("&#122z") == "zz");
}

#[test]
fn fast_bare_dec_entity() {
    assert!(fast("&#122&lt;") == "z<");
}

#[test]
fn fast_attribute_bare_dec_entity() {
    assert!(fast_attribute("&#122&lt;") == "z<");
}

#[test]
fn fast_bare_dec_end() {
    assert!(fast("&#122") == "z");
}

#[test]
fn fast_attribute_bare_dec_end() {
    assert!(fast_attribute("&#122") == "z");
}

#[test]
fn fast_bare_empty_numeric_char() {
    assert!(fast("&#z") == "&#z");
}

#[test]
fn fast_attribute_bare_empty_numeric_char() {
    assert!(fast_attribute("&#z") == "&#z");
}

#[test]
fn fast_bare_empty_numeric_entity() {
    assert!(fast("&#&lt;") == "&#<");
}

#[test]
fn fast_attribute_bare_empty_numeric_entity() {
    assert!(fast_attribute("&#&lt;") == "&#<");
}

#[test]
fn fast_bare_empty_numeric_end() {
    assert!(fast("&#") == "&#");
}

#[test]
fn fast_attribute_bare_empty_numeric_end() {
    assert!(fast_attribute("&#") == "&#");
}

#[test]
fn fast_hex_instead_of_dec() {
    assert!(fast("&#a0;") == "&#a0;");
}

#[test]
fn fast_attribute_hex_instead_of_dec() {
    assert!(fast_attribute("&#a0;") == "&#a0;");
}

#[test]
fn fast_invalid_hex_lowerx() {
    assert!(fast("&#xZ;") == "&#xZ;");
}

#[test]
fn fast_attribute_invalid_hex_lowerx() {
    assert!(fast_attribute("&#xZ;") == "&#xZ;");
}

#[test]
fn fast_invalid_hex_upperx() {
    assert!(fast("&#XZ;") == "&#XZ;");
}

#[test]
fn fast_attribute_invalid_hex_upperx() {
    assert!(fast_attribute("&#XZ;") == "&#XZ;");
}

#[test]
fn fast_hex_control_1() {
    assert!(fast("&#x1;") == "\u{1}");
}

#[test]
fn fast_attribute_hex_control_1() {
    assert!(fast_attribute("&#x1;") == "\u{1}");
}

#[test]
fn fast_dec_control_1() {
    assert!(fast("&#1;") == "\u{1}");
}

#[test]
fn fast_attribute_dec_control_1() {
    assert!(fast_attribute("&#1;") == "\u{1}");
}

#[test]
fn fast_dec_cr() {
    assert!(fast("&#13;") == "\r");
}

#[test]
fn fast_attribute_dec_cr() {
    assert!(fast_attribute("&#13;") == "\r");
}

#[test]
fn fast_hex_cr() {
    assert!(fast("&#xd;") == "\r");
}

#[test]
fn fast_attribute_hex_cr() {
    assert!(fast_attribute("&#xd;") == "\r");
}

#[test]
fn fast_hex_tab() {
    assert!(fast("&#9;") == "\t");
}

#[test]
fn fast_attribute_hex_tab() {
    assert!(fast_attribute("&#9;") == "\t");
}

#[test]
fn fast_dec_tab() {
    assert!(fast("&#9;") == "\t");
}

#[test]
fn fast_attribute_dec_tab() {
    assert!(fast_attribute("&#9;") == "\t");
}

#[test]
fn fast_hex_max_code_point() {
    assert!(fast("&#x10ffff;") == "\u{10ffff}");
}

#[test]
fn fast_attribute_hex_max_code_point() {
    assert!(fast_attribute("&#x10ffff;") == "\u{10ffff}");
}

#[test]
fn fast_hex_above_max_code_point() {
    assert!(fast("&#x110001;") == "\u{fffd}");
}

#[test]
fn fast_attribute_hex_above_max_code_point() {
    assert!(fast_attribute("&#x110001;") == "\u{fffd}");
}

#[test]
fn fast_hex_11_chars() {
    assert!(fast("&#x1100000000;") == "\u{fffd}");
}

#[test]
fn fast_attribute_hex_11_chars() {
    assert!(fast_attribute("&#x1100000000;") == "\u{fffd}");
}

#[test]
fn fast_bare_hex_11_chars_end() {
    assert!(fast("&#x1100000000") == "\u{fffd}");
}

#[test]
fn fast_attribute_bare_hex_11_chars_end() {
    assert!(fast_attribute("&#x1100000000") == "\u{fffd}");
}

#[test]
fn fast_hex_40_chars() {
    assert!(fast("&#x110000000000000000000000000000000000000;") == "\u{fffd}");
}

#[test]
fn fast_attribute_hex_40_chars() {
    assert!(fast_attribute("&#x110000000000000000000000000000000000000;") == "\u{fffd}");
}

#[test]
fn fast_bare_hex_40_chars_end() {
    assert!(fast("&#x110000000000000000000000000000000000000") == "\u{fffd}");
}

#[test]
fn fast_attribute_bare_hex_40_chars_end() {
    assert!(fast_attribute("&#x110000000000000000000000000000000000000") == "\u{fffd}");
}

#[test]
fn fast_special_entity_null() {
    assert!(fast("&#0;") == "\u{fffd}");
}

#[test]
fn fast_attribute_special_entity_null() {
    assert!(fast_attribute("&#0;") == "\u{fffd}");
}

#[test]
fn fast_special_entity_bullet() {
    assert!(fast("&#x95;") == "•");
}

#[test]
fn fast_attribute_special_entity_bullet() {
    assert!(fast_attribute("&#x95;") == "•");
}

#[test]
fn fast_special_entity_bullets() {
    assert!(fast("&#x95;&#149;&#x2022;•") == "••••");
}

#[test]
fn fast_attribute_special_entity_bullets() {
    assert!(fast_attribute("&#x95;&#149;&#x2022;•") == "••••");
}

#[test]
fn fast_special_entity_space() {
    assert!(fast("&#x20") == " ");
}

#[test]
fn fast_attribute_special_entity_space() {
    assert!(fast_attribute("&#x20") == " ");
}

#[test]
fn fast_all_entities() {
    for entry in entities::ENTITIES.iter() {
        assert_eq!(fast(entry.entity), entry.characters);
        assert_eq!(fast_attribute(entry.entity), entry.characters);
    }
}

#[test]
fn fast_agrees_with_the_table_lookup() {
    let texts = [
        "&timesbar &times;bar &timesb;ar &notin; &notit; &not; &notx",
        "&amp=1&amp;=2&lt=&gt",
        "&#x26;&#38&#;&#x;&",
        "a&b&c&d;&e",
    ];
    for text in texts {
        assert_eq!(fast(text), htmlize::unescape(text));
        assert_eq!(fast_attribute(text), htmlize::unescape_attribute(text));
    }
    for entry in entities::ENTITIES.iter() {
        for tail in ["", ";", "=", "x", "1", " ", "&", "#"] {
            let text = format!("{}{}", entry.entity, tail);
            assert_eq!(fast(&text), htmlize::unescape(text.as_str()));
            assert_eq!(fast_attribute(&text), htmlize::unescape_attribute(text.as_str()));
        }
    }
}

#[test]
fn fast_matcher_answers_out_of_range_count_as_none() {
    let nothing = |_input: &[u8]| (Some((true, &b"x"[..])), 0usize);
    let mut iter = Cursor::new(b"&amp;");
    assert_eq!(match_entity_fast(&mut iter, Context::General, nothing), None);
    assert_eq!(iter.as_slice(), b"amp;");

    let too_much = |_input: &[u8]| (Some((true, &b"x"[..])), 6usize);
    let mut iter = Cursor::new(b"&amp;");
    assert_eq!(match_entity_fast(&mut iter, Context::General, too_much), None);
    assert_eq!(iter.as_slice(), b"amp;");

    let all = |_input: &[u8]| (Some((true, &b"x"[..])), 5usize);
    let mut iter = Cursor::new(b"&amp;");
    assert_eq!(
        match_entity_fast(&mut iter, Context::General, all).as_deref(),
        Some(&b"x"[..])
    );
    assert_eq!(iter.as_slice(), b"");
}

#[test]
fn fast_matcher_is_not_asked_about_numeric_references() {
    let never = |_input: &[u8]| -> (Option<(bool, &'static [u8])>, usize) {
        panic!("asked about a numeric reference")
    };
    let mut iter = Cursor::new(b"&#65;");
    assert_eq!(
        match_entity_fast(&mut iter, Context::Attribute, never).as_deref(),
        Some(&b"A"[..])
    );
    assert_eq!(iter.as_slice(), b"");
}

#[test]
fn fast_invalid_utf8() {
    assert!(unescape_bytes_fast(&b"\xa1"[..], Context::General) == &b"\xa1"[..]);
}

#[test]
fn fast_attribute_invalid_utf8() {
    assert!(unescape_bytes_fast(&b"\xa1"[..], Context::Attribute) == &b"\xa1"[..]);
}
