//! Numeric character references: `&#122;`, `&#x7A;` and the like.

use crate::bytes::{is_ascii_digit, is_ascii_hexdigit, is_hex_digit};
use crate::cursor::{assert_next_eq, peek, peek_at, slice_while, Cursor};
use crate::unescape::model::{
    digit_run, digit_value, digits_value, expansion_view, is_digit_of, is_unrepresentable,
    legacy_code_point, match_numeric, matched_as, numeric_expansion, radix, AMPERSAND, HASH,
    LOWER_X, REPLACEMENT, SEMICOLON, UPPER_X,
};
use std::borrow::Cow;
use vstd::prelude::*;
use vstd::utf8::{encode_scalar, encode_utf8, is_scalar};

verus! {

/// Why a run of digits spells no `u32`.
#[derive(Clone, Copy, Debug, PartialEq, Eq, Structural)]
pub enum NumberError {
    /// There are no digits.
    Empty,
    /// A byte is not a digit of the system asked for.
    InvalidDigit,
    /// The number is larger than a `u32` can hold.
    Overflow,
}

/// Whether every byte of `digits` is a digit of the system.
pub open spec fn all_digits(digits: Seq<u8>, hex: bool) -> bool {
    forall|i: int| 0 <= i < digits.len() ==> is_digit_of(#[trigger] digits[i], hex)
}

/// The value of a digit, which the caller knows to be one.
fn value_of_digit(digit: u8) -> (value: u64)
    requires
        is_hex_digit(digit),
    ensures
        value == digit_value(digit),
        value < 16,
{
    if digit <= 0x39 {
        (digit - 0x30) as u64
    } else if digit <= 0x46 {
        (digit - 0x41 + 10) as u64
    } else {
        (digit - 0x61 + 10) as u64
    }
}

/// A number is no smaller than the number that fewer of its digits spell.
proof fn lemma_digits_value_grows(digits: Seq<u8>, hex: bool, count: int)
    requires
        0 <= count <= digits.len(),
    ensures
        digits_value(digits.take(count), hex) <= digits_value(digits, hex),
    decreases digits.len() - count,
{
    if count < digits.len() {
        lemma_digits_value_grows(digits, hex, count + 1);
        let longer = digits.take(count + 1);
        assert(longer.drop_last() =~= digits.take(count));
    } else {
        assert(digits.take(count) =~= digits);
    }
}

/// Reads `digits` as a number in the decimal system, or in the hexadecimal
/// system when `hex` is set. No sign and no prefix is accepted.
pub fn parse_digits(digits: &[u8], hex: bool) -> (parsed: Result<u32, NumberError>)
    ensures
        match parsed {
            Ok(value) => digits@.len() > 0 && all_digits(digits@, hex) && value == digits_value(
                digits@,
                hex,
            ),
            Err(NumberError::Empty) => digits@.len() == 0,
            Err(NumberError::InvalidDigit) => !all_digits(digits@, hex),
            Err(NumberError::Overflow) => digits@.len() > 0 && all_digits(digits@, hex)
                && digits_value(digits@, hex) > u32::MAX,
        },
{
    if digits.len() == 0 {
        return Err(NumberError::Empty);
    }
    let mut checked: usize = 0;
    while checked < digits.len()
        invariant
            checked <= digits@.len(),
            forall|i: int| 0 <= i < checked ==> is_digit_of(#[trigger] digits@[i], hex),
        decreases digits@.len() - checked,
    {
        let byte = digits[checked];
        let valid = if hex {
            is_ascii_hexdigit(byte)
        } else {
            is_ascii_digit(byte)
        };
        if !valid {
            return Err(NumberError::InvalidDigit);
        }
        checked += 1;
    }
    let base: u64 = if hex {
        16
    } else {
        10
    };
    let mut value: u64 = 0;
    let mut i: usize = 0;
    while i < digits.len()
        invariant
            i <= digits@.len(),
            all_digits(digits@, hex),
            base == radix(hex),
            value == digits_value(digits@.take(i as int), hex),
            value <= u32::MAX,
        decreases digits@.len() - i,
    {
        let digit = value_of_digit(digits[i]);
        proof {
            let longer = digits@.take(i + 1);
            assert(longer.drop_last() =~= digits@.take(i as int));
        }
        value = value * base + digit;
        i += 1;
        if value > 0xFFFF_FFFF {
            proof {
                lemma_digits_value_grows(digits@, hex, i as int);
            }
            return Err(NumberError::Overflow);
        }
    }
    assert(digits@.take(i as int) =~= digits@);
    Ok(value as u32)
}

/// The UTF-8 encoding of the code point `scalar`.
pub fn encode_code_point(scalar: u32) -> (bytes: Vec<u8>)
    requires
        is_scalar(scalar),
    ensures
        bytes@ == encode_scalar(scalar),
{
    let mut bytes: Vec<u8> = Vec::new();
    if scalar <= 0x7F {
        bytes.push((scalar & 0x7F) as u8);
    } else if scalar <= 0x7FF {
        bytes.push(0xC0 | ((scalar >> 6) & 0x1F) as u8);
        bytes.push(0x80 | (scalar & 0x3F) as u8);
    } else if scalar <= 0xFFFF {
        bytes.push(0xE0 | ((scalar >> 12) & 0x0F) as u8);
        bytes.push(0x80 | ((scalar >> 6) & 0x3F) as u8);
        bytes.push(0x80 | (scalar & 0x3F) as u8);
    } else {
        bytes.push(0xF0 | ((scalar >> 18) & 0x7) as u8);
        bytes.push(0x80 | ((scalar >> 12) & 0x3F) as u8);
        bytes.push(0x80 | ((scalar >> 6) & 0x3F) as u8);
        bytes.push(0x80 | (scalar & 0x3F) as u8);
    }
    bytes
}

/// The bytes of a text of one character.
fn single_char_bytes(text: &'static str) -> (bytes: &'static [u8])
    requires
        text@.len() == 1,
    ensures
        bytes@ == encode_scalar(text@[0] as u32),
{
    proof {
        reveal_with_fuel(encode_utf8, 2);
    }
    let bytes = text.as_bytes();
    bytes
}

/// The bytes of U+FFFD, the replacement character.
pub fn replacement_char_bytes() -> (bytes: &'static [u8])
    ensures
        bytes@ == encode_scalar(REPLACEMENT),
{
    proof {
        reveal_strlit("\u{fffd}");
    }
    single_char_bytes("\u{fffd}")
}

/// The bytes of the character that Windows-1252 has in the place of the
/// C1 control code `number`, where it has one.
fn legacy_bytes(number: u32) -> (bytes: Option<&'static [u8]>)
    ensures
        match bytes {
            Some(encoded) => legacy_code_point(number as nat) is Some && encoded@ == encode_scalar(
                legacy_code_point(number as nat).unwrap(),
            ),
            None => legacy_code_point(number as nat) is None,
        },
{
    match number {
        0x80 => {
            proof {
                reveal_strlit("\u{20AC}");
            }
            Some(single_char_bytes("\u{20AC}"))
        },
        0x82 => {
            proof {
                reveal_strlit("\u{201A}");
            }
            Some(single_char_bytes("\u{201A}"))
        },
        0x83 => {
            proof {
                reveal_strlit("\u{0192}");
            }
            Some(single_char_bytes("\u{0192}"))
        },
        0x84 => {
            proof {
                reveal_strlit("\u{201E}");
            }
            Some(single_char_bytes("\u{201E}"))
        },
        0x85 => {
            proof {
                reveal_strlit("\u{2026}");
            }
            Some(single_char_bytes("\u{2026}"))
        },
        0x86 => {
            proof {
                reveal_strlit("\u{2020}");
            }
            Some(single_char_bytes("\u{2020}"))
        },
        0x87 => {
            proof {
                reveal_strlit("\u{2021}");
            }
            Some(single_char_bytes("\u{2021}"))
        },
        0x88 => {
            proof {
                reveal_strlit("\u{02C6}");
            }
            Some(single_char_bytes("\u{02C6}"))
        },
        0x89 => {
            proof {
                reveal_strlit("\u{2030}");
            }
            Some(single_char_bytes("\u{2030}"))
        },
        0x8A => {
            proof {
                reveal_strlit("\u{0160}");
            }
            Some(single_char_bytes("\u{0160}"))
        },
        0x8B => {
            proof {
                reveal_strlit("\u{2039}");
            }
            Some(single_char_bytes("\u{2039}"))
        },
        0x8C => {
            proof {
                reveal_strlit("\u{0152}");
            }
            Some(single_char_bytes("\u{0152}"))
        },
        0x8E => {
            proof {
                reveal_strlit("\u{017D}");
            }
            Some(single_char_bytes("\u{017D}"))
        },
        0x91 => {
            proof {
                reveal_strlit("\u{2018}");
            }
            Some(single_char_bytes("\u{2018}"))
        },
        0x92 => {
            proof {
                reveal_strlit("\u{2019}");
            }
            Some(single_char_bytes("\u{2019}"))
        },
        0x93 => {
            proof {
                reveal_strlit("\u{201C}");
            }
            Some(single_char_bytes("\u{201C}"))
        },
        0x94 => {
            proof {
                reveal_strlit("\u{201D}");
            }
            Some(single_char_bytes("\u{201D}"))
        },
        0x95 => {
            proof {
                reveal_strlit("\u{2022}");
            }
            Some(single_char_bytes("\u{2022}"))
        },
        0x96 => {
            proof {
                reveal_strlit("\u{2013}");
            }
            Some(single_char_bytes("\u{2013}"))
        },
        0x97 => {
            proof {
                reveal_strlit("\u{2014}");
            }
            Some(single_char_bytes("\u{2014}"))
        },
        0x98 => {
            proof {
                reveal_strlit("\u{02DC}");
            }
            Some(single_char_bytes("\u{02DC}"))
        },
        0x99 => {
            proof {
                reveal_strlit("\u{2122}");
            }
            Some(single_char_bytes("\u{2122}"))
        },
        0x9A => {
            proof {
                reveal_strlit("\u{0161}");
            }
            Some(single_char_bytes("\u{0161}"))
        },
        0x9B => {
            proof {
                reveal_strlit("\u{203A}");
            }
            Some(single_char_bytes("\u{203A}"))
        },
        0x9C => {
            proof {
                reveal_strlit("\u{0153}");
            }
            Some(single_char_bytes("\u{0153}"))
        },
        0x9E => {
            proof {
                reveal_strlit("\u{017E}");
            }
            Some(single_char_bytes("\u{017E}"))
        },
        0x9F => {
            proof {
                reveal_strlit("\u{0178}");
            }
            Some(single_char_bytes("\u{0178}"))
        },
        _ => None,
    }
}

/// Whether the expansion of a numeric reference to `value` is one of the
/// fixed texts: the replacement character or a legacy substitute.
pub open spec fn has_fixed_expansion(value: nat) -> bool {
    is_unrepresentable(value) || legacy_code_point(value) is Some
}

/// The expansion of a numeric reference to the number `number`.
///
/// Zero, a surrogate and a number beyond the last code point give the
/// replacement character, a C1 control code with a place in Windows-1252
/// gives that character, and any other number gives the code point that it
/// names. The fixed texts are borrowed.
pub fn correct_numeric_entity(number: u32) -> (expansion: Cow<'static, [u8]>)
    ensures
        expansion@ == numeric_expansion(number as nat),
        expansion is Borrowed <==> has_fixed_expansion(number as nat),
{
    if number == 0 || number >= 0x11_0000 || (0xD800 <= number && number <= 0xDFFF) {
        Cow::Borrowed(replacement_char_bytes())
    } else {
        match legacy_bytes(number) {
            Some(bytes) => Cow::Borrowed(bytes),
            None => Cow::Owned(encode_code_point(number)),
        }
    }
}

/// A run of digits that ends where the input ends or a byte is no digit
/// is the whole digit run.
proof fn lemma_digit_run(s: Seq<u8>, hex: bool, count: int)
    requires
        0 <= count <= s.len(),
        forall|i: int| 0 <= i < count ==> is_digit_of(#[trigger] s[i], hex),
        count < s.len() ==> !is_digit_of(s[count], hex),
    ensures
        digit_run(s, hex) == count,
    decreases count,
{
    if count > 0 {
        let rest = s.skip(1);
        lemma_digit_run(rest, hex, count - 1);
    }
}

/// Matches the numeric reference that the cursor stands in front of, such
/// as `&#x20;` or `&#32`. With a match the cursor is moved behind the
/// reference; without one it is moved behind the `&`.
pub fn match_numeric_entity(iter: &mut Cursor) -> (expansion: Option<Cow<'static, [u8]>>)
    requires
        peek_at(old(iter)@, 0) == Some(AMPERSAND),
        peek_at(old(iter)@, 1) == Some(HASH),
    ensures
        matched_as(old(iter)@, final(iter)@, expansion_view(expansion), match_numeric(old(iter)@)),
{
    let ghost input = iter@;
    let mut behind_ampersand = *iter;
    assert_next_eq(&mut behind_ampersand, Some(AMPERSAND));
    assert_next_eq(iter, Some(AMPERSAND));
    assert_next_eq(iter, Some(HASH));
    assert(iter@ =~= input.skip(2));

    let marker = peek(iter);
    let hex = match marker {
        Some(byte) => byte == LOWER_X || byte == UPPER_X,
        None => false,
    };
    let ghost start: int = if hex {
        3
    } else {
        2
    };
    let number = if hex {
        assert_next_eq(iter, marker);
        assert(iter@ =~= input.skip(3));
        let digits = slice_while(iter, is_ascii_hexdigit);
        proof {
            let ahead = input.skip(start);
            assert forall|i: int| 0 <= i < digits@.len() implies is_digit_of(
                #[trigger] ahead[i],
                hex,
            ) by {
                assert(ahead[i] == digits@[i]);
            }
            lemma_digit_run(ahead, hex, digits@.len() as int);
        }
        parse_digits(digits, true)
    } else {
        let digits = slice_while(iter, is_ascii_digit);
        proof {
            let ahead = input.skip(start);
            assert forall|i: int| 0 <= i < digits@.len() implies is_digit_of(
                #[trigger] ahead[i],
                hex,
            ) by {
                assert(ahead[i] == digits@[i]);
            }
            lemma_digit_run(ahead, hex, digits@.len() as int);
        }
        parse_digits(digits, false)
    };
    let ghost count = digit_run(input.skip(start), hex);
    let ghost end = start + count;
    assert(iter@ =~= input.skip(end));
    assert(count > 0 ==> input.skip(start).take(count as int) =~= input.subrange(start, end));

    match peek(iter) {
        Some(next) => {
            if next == SEMICOLON {
                assert_next_eq(iter, Some(SEMICOLON));
                assert(iter@ =~= input.skip(end + 1));
            }
        },
        None => {},
    }

    match number {
        Ok(value) => Some(correct_numeric_entity(value)),
        Err(NumberError::Overflow) => Some(Cow::Borrowed(replacement_char_bytes())),
        Err(_) => {
            *iter = behind_ampersand;
            None
        },
    }
}

} // verus!
