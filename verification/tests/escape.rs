use htmlize::{
    escape_all_quotes, escape_all_quotes_bytes, escape_attribute, escape_attribute_bytes,
    escape_text, escape_text_bytes,
};

#[test]
fn escape_text_none() {
    assert!(escape_text("") == "");
}

#[test]
fn escape_text_bytes_none() {
    assert!(escape_text_bytes("".as_bytes()) == "".as_bytes());
}

#[test]
fn escape_attribute_none() {
    assert!(escape_attribute("") == "");
}

#[test]
fn escape_attribute_bytes_none() {
    assert!(escape_attribute_bytes("".as_bytes()) == "".as_bytes());
}

#[test]
fn escape_all_quotes_none() {
    assert!(escape_all_quotes("") == "");
}

#[test]
fn escape_all_quotes_bytes_none() {
    assert!(escape_all_quotes_bytes("".as_bytes()) == "".as_bytes());
}

#[test]
fn escape_text_clean() {
    assert!(escape_text("clean") == "clean");
}

#[test]
fn escape_text_bytes_clean() {
    assert!(escape_text_bytes("clean".as_bytes()) == "clean".as_bytes());
}

#[test]
fn escape_attribute_clean() {
    assert!(escape_attribute("clean") == "clean");
}

#[test]
fn escape_attribute_bytes_clean() {
    assert!(escape_attribute_bytes("clean".as_bytes()) == "clean".as_bytes());
}

#[test]
fn escape_all_quotes_clean() {
    assert!(escape_all_quotes("clean") == "clean");
}

#[test]
fn escape_all_quotes_bytes_clean() {
    assert!(escape_all_quotes_bytes("clean".as_bytes()) == "clean".as_bytes());
}

#[test]
fn escape_text_lt_gt() {
    assert!(escape_text("< >") == "&lt; &gt;");
}

#[test]
fn escape_text_bytes_lt_gt() {
    assert!(escape_text_bytes("< >".as_bytes()) == "&lt; &gt;".as_bytes());
}

#[test]
fn escape_attribute_lt_gt() {
    assert!(escape_attribute("< >") == "&lt; &gt;");
}

#[test]
fn escape_attribute_bytes_lt_gt() {
    assert!(escape_attribute_bytes("< >".as_bytes()) == "&lt; &gt;".as_bytes());
}

#[test]
fn escape_all_quotes_lt_gt() {
    assert!(escape_all_quotes("< >") == "&lt; &gt;");
}

#[test]
fn escape_all_quotes_bytes_lt_gt() {
    assert!(escape_all_quotes_bytes("< >".as_bytes()) == "&lt; &gt;".as_bytes());
}

#[test]
fn escape_text_amp() {
    assert!(escape_text("&amp;") == "&amp;amp;");
}

#[test]
fn escape_text_bytes_amp() {
    assert!(escape_text_bytes("&amp;".as_bytes()) == "&amp;amp;".as_bytes());
}

#[test]
fn escape_attribute_amp() {
    assert!(escape_attribute("&amp;") == "&amp;amp;");
}

#[test]
fn escape_attribute_bytes_amp() {
    assert!(escape_attribute_bytes("&amp;".as_bytes()) == "&amp;amp;".as_bytes());
}

#[test]
fn escape_all_quotes_amp() {
    assert!(escape_all_quotes("&amp;") == "&amp;amp;");
}

#[test]
fn escape_all_quotes_bytes_amp() {
    assert!(escape_all_quotes_bytes("&amp;".as_bytes()) == "&amp;amp;".as_bytes());
}

#[test]
fn escape_text_prefix_amp() {
    assert!(escape_text("prefix&") == "prefix&amp;");
}

#[test]
fn escape_text_bytes_prefix_amp() {
    assert!(escape_text_bytes("prefix&".as_bytes()) == "prefix&amp;".as_bytes());
}

#[test]
fn escape_attribute_prefix_amp() {
    assert!(escape_attribute("prefix&") == "prefix&amp;");
}

#[test]
fn escape_attribute_bytes_prefix_amp() {
    assert!(escape_attribute_bytes("prefix&".as_bytes()) == "prefix&amp;".as_bytes());
}

#[test]
fn escape_all_quotes_prefix_amp() {
    assert!(escape_all_quotes("prefix&") == "prefix&amp;");
}

#[test]
fn escape_all_quotes_bytes_prefix_amp() {
    assert!(escape_all_quotes_bytes("prefix&".as_bytes()) == "prefix&amp;".as_bytes());
}

#[test]
fn escape_text_emoji_amp() {
    assert!(escape_text("☺️&☺️") == "☺️&amp;☺️");
}

#[test]
fn escape_text_bytes_emoji_amp() {
    assert!(escape_text_bytes("☺️&☺️".as_bytes()) == "☺️&amp;☺️".as_bytes());
}

#[test]
fn escape_attribute_emoji_amp() {
    assert!(escape_attribute("☺️&☺️") == "☺️&amp;☺️");
}

#[test]
fn escape_attribute_bytes_emoji_amp() {
    assert!(escape_attribute_bytes("☺️&☺️".as_bytes()) == "☺️&amp;☺️".as_bytes());
}

#[test]
fn escape_all_quotes_emoji_amp() {
    assert!(escape_all_quotes("☺️&☺️") == "☺️&amp;☺️");
}

#[test]
fn escape_all_quotes_bytes_emoji_amp() {
    assert!(escape_all_quotes_bytes("☺️&☺️".as_bytes()) == "☺️&amp;☺️".as_bytes());
}

#[test]
fn escape_text_special_clean() {
    assert!(escape_text("Björk and Борис OBrien ❤️, “love beats hate”") == "Björk and Борис OBrien ❤️, “love beats hate”");
}

#[test]
fn escape_text_bytes_special_clean() {
    assert!(escape_text_bytes("Björk and Борис OBrien ❤️, “love beats hate”".as_bytes()) == "Björk and Борис OBrien ❤️, “love beats hate”".as_bytes());
}

#[test]
fn escape_attribute_special_clean() {
    assert!(escape_attribute("Björk and Борис OBrien ❤️, “love beats hate”") == "Björk and Борис OBrien ❤️, “love beats hate”");
}

#[test]
fn escape_attribute_bytes_special_clean() {
    assert!(escape_attribute_bytes("Björk and Борис OBrien ❤️, “love beats hate”".as_bytes()) == "Björk and Борис OBrien ❤️, “love beats hate”".as_bytes());
}

#[test]
fn escape_all_quotes_special_clean() {
    assert!(escape_all_quotes("Björk and Борис OBrien ❤️, “love beats hate”") == "Björk and Борис OBrien ❤️, “love beats hate”");
}

#[test]
fn escape_all_quotes_bytes_special_clean() {
    assert!(escape_all_quotes_bytes("Björk and Борис OBrien ❤️, “love beats hate”".as_bytes()) == "Björk and Борис OBrien ❤️, “love beats hate”".as_bytes());
}
