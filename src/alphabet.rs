//! The 25-letter cipher alphabet: lowercase `a`–`z` with `i` and `j` sharing
//! one slot.
use vstd::prelude::*;

verus! {

/// Number of letters in the cipher alphabet.
pub const ALPHABET_LEN: u8 = 25;

/// The byte `a`.
pub const BYTE_A: u8 = 97;

/// The byte `i`.
pub const BYTE_I: u8 = 105;

/// The byte `j`.
pub const BYTE_J: u8 = 106;

/// The byte `z`.
pub const BYTE_Z: u8 = 122;

/// Alphabet index of the merged `i`/`j` slot.
pub const IJ_INDEX: u8 = 8;

/// Alphabet index of the filler letter `x`.
pub const FILLER_INDEX: u8 = 22;

/// A byte that takes part in the cipher: a lowercase ASCII letter.
pub open spec fn is_cipher_byte(c: u8) -> bool {
    BYTE_A <= c && c <= BYTE_Z
}

/// The alphabet index of a cipher byte; `j` lands on `i`'s slot.
pub open spec fn index_of_byte(c: u8) -> int {
    if c <= BYTE_I {
        c - BYTE_A
    } else {
        c - BYTE_A - 1
    }
}

/// The letter stored for an alphabet index (the merged slot is `i`).
pub open spec fn byte_of_index(i: int) -> u8 {
    if i <= IJ_INDEX {
        (i + BYTE_A) as u8
    } else {
        (i + BYTE_A + 1) as u8
    }
}

/// Whether `c` is one of the 25 letters that a key square holds.
pub open spec fn is_square_letter(c: u8) -> bool {
    is_cipher_byte(c) && c != BYTE_J
}

pub proof fn lemma_index_round_trip(i: int)
    requires
        0 <= i < ALPHABET_LEN,
    ensures
        is_square_letter(byte_of_index(i)),
        index_of_byte(byte_of_index(i)) == i,
{
}

pub proof fn lemma_byte_round_trip(c: u8)
    requires
        is_cipher_byte(c),
    ensures
        0 <= index_of_byte(c) < ALPHABET_LEN,
        c != BYTE_J ==> byte_of_index(index_of_byte(c)) == c,
        c == BYTE_J ==> byte_of_index(index_of_byte(c)) == BYTE_I,
{
}

/// The alphabet index of a lowercase letter, or `None` for any other byte.
pub fn letter_index(c: u8) -> (r: Option<u8>)
    ensures
        r == (if is_cipher_byte(c) {
            Some(index_of_byte(c) as u8)
        } else {
            None::<u8>
        }),
{
    if c < BYTE_A || c > BYTE_Z {
        None
    } else if c <= BYTE_I {
        Some(c - BYTE_A)
    } else {
        Some(c - BYTE_A - 1)
    }
}

/// The letter stored for an alphabet index.
pub fn letter_of_index(i: u8) -> (r: u8)
    requires
        i < ALPHABET_LEN,
    ensures
        r == byte_of_index(i as int),
{
    if i <= IJ_INDEX {
        i + BYTE_A
    } else {
        i + BYTE_A + 1
    }
}

} // verus!
