//! Classes of ASCII bytes and small helpers on byte slices.

use vstd::prelude::*;

verus! {

/// `b` is one of `0`..`9`.
pub open spec fn is_digit(b: u8) -> bool {
    0x30 <= b <= 0x39
}

/// `b` is one of `0`..`9`, `a`..`f`, `A`..`F`.
pub open spec fn is_hex_digit(b: u8) -> bool {
    is_digit(b) || 0x41 <= b <= 0x46 || 0x61 <= b <= 0x66
}

/// `b` is an ASCII letter or digit.
pub open spec fn is_alphanumeric(b: u8) -> bool {
    is_digit(b) || 0x41 <= b <= 0x5A || 0x61 <= b <= 0x7A
}

/// Whether `b` is an ASCII decimal digit.
pub fn is_ascii_digit(b: u8) -> (yes: bool)
    ensures
        yes == is_digit(b),
{
    0x30 <= b && b <= 0x39
}

/// Whether `b` is an ASCII hexadecimal digit of either case.
pub fn is_ascii_hexdigit(b: u8) -> (yes: bool)
    ensures
        yes == is_hex_digit(b),
{
    (0x30 <= b && b <= 0x39) || (0x41 <= b && b <= 0x46) || (0x61 <= b && b <= 0x66)
}

/// Whether `b` is an ASCII letter or digit.
pub fn is_ascii_alphanumeric(b: u8) -> (yes: bool)
    ensures
        yes == is_alphanumeric(b),
{
    (0x30 <= b && b <= 0x39) || (0x41 <= b && b <= 0x5A) || (0x61 <= b && b <= 0x7A)
}

/// Whether two byte slices hold the same bytes.
pub fn bytes_equal(left: &[u8], right: &[u8]) -> (same: bool)
    ensures
        same == (left@ == right@),
{
    if left.len() != right.len() {
        return false;
    }
    let mut i: usize = 0;
    while i < left.len()
        invariant
            left@.len() == right@.len(),
            i <= left@.len(),
            forall|j: int| 0 <= j < i ==> left@[j] == right@[j],
        decreases left@.len() - i,
    {
        if left[i] != right[i] {
            return false;
        }
        i += 1;
    }
    assert(left@ =~= right@);
    true
}

} // verus!
