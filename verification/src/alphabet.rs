//! Bytes and letters: the 26-letter alphabet that the machine works on.

use vstd::prelude::*;

verus! {

/// True for the ASCII letters `A`..`Z` and `a`..`z`.
pub open spec fn alpha(c: u8) -> bool {
    (0x41 <= c && c <= 0x5a) || (0x61 <= c && c <= 0x7a)
}

/// The upper-case form of an ASCII letter; any other byte is itself.
pub open spec fn upper(c: u8) -> u8 {
    if 0x61 <= c && c <= 0x7a {
        (c - 0x20) as u8
    } else {
        c
    }
}

/// The place of a letter in the alphabet, from 0 for `A` or `a` to 25 for `Z`
/// or `z`.
pub open spec fn letter(c: u8) -> int {
    upper(c) - 0x41
}

/// Tells whether `c` is an ASCII letter.
pub fn is_alpha(c: u8) -> (b: bool)
    ensures
        b == alpha(c),
{
    (c >= 0x41 && c <= 0x5a) || (c >= 0x61 && c <= 0x7a)
}

/// Maps a lower-case ASCII letter to its upper-case form and leaves every
/// other byte as it is.
pub fn toupper(c: u8) -> (u: u8)
    ensures
        u == upper(c),
{
    if c >= 0x61 && c <= 0x7a {
        c - 0x20
    } else {
        c
    }
}

} // verus!
