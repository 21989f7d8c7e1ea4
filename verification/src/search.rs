//! Searching a byte slice for one of a few bytes, by the `memchr` crate.

use vstd::prelude::*;

verus! {

/// Whether no byte of `haystack` before position `end` is one of the three
/// needles.
pub open spec fn none_of(
    haystack: Seq<u8>,
    end: int,
    needle1: u8,
    needle2: u8,
    needle3: u8,
) -> bool {
    forall|i: int|
        0 <= i < end ==> {
            &&& #[trigger] haystack[i] != needle1
            &&& haystack[i] != needle2
            &&& haystack[i] != needle3
        }
}

/// `memchr::memchr` returns the index of the first byte of `haystack` that
/// equals `needle`, or `None` when no byte of it does.
pub assume_specification[ memchr::memchr ](needle: u8, haystack: &[u8]) -> (found: Option<usize>)
    ensures
        match found {
            Some(index) => {
                &&& index < haystack@.len()
                &&& haystack@[index as int] == needle
                &&& none_of(haystack@, index as int, needle, needle, needle)
            },
            None => none_of(haystack@, haystack@.len() as int, needle, needle, needle),
        },
;

/// `memchr::memchr3` returns the index of the first byte of `haystack` that
/// equals one of the three needles, or `None` when no byte of it does.
pub assume_specification[ memchr::memchr3 ](
    needle1: u8,
    needle2: u8,
    needle3: u8,
    haystack: &[u8],
) -> (found: Option<usize>)
    ensures
        match found {
            Some(index) => {
                &&& index < haystack@.len()
                &&& (haystack@[index as int] == needle1 || haystack@[index as int] == needle2
                    || haystack@[index as int] == needle3)
                &&& none_of(haystack@, index as int, needle1, needle2, needle3)
            },
            None => none_of(haystack@, haystack@.len() as int, needle1, needle2, needle3),
        },
;

} // verus!
