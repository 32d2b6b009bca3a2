//! The digraph substitution over an abstract key square (its 25 letters, row
//! by row), and the stream transform that pairs up the letters of a text.
use vstd::prelude::*;
use crate::alphabet::{byte_of_index, index_of_byte, is_cipher_byte, ALPHABET_LEN, FILLER_INDEX};

verus! {

/// Number of rows, and of columns, of a key square.
pub const SIDE: u8 = 5;

/// The cell (0 to 24, row by row) of `sq` that holds the letter of index `a`.
pub open spec fn cell_index(sq: Seq<u8>, a: int) -> int {
    choose|k: int| 0 <= k < ALPHABET_LEN && sq[k] == byte_of_index(a)
}

/// The letter in row `row` and column `col` (both 0 to 4).
pub open spec fn letter_at(sq: Seq<u8>, row: int, col: int) -> u8 {
    sq[row * SIDE + col]
}

/// One row (or column) further on when encoding, one back when decoding,
/// wrapping around the edge of the square.
pub open spec fn next_line(x: int, encode: bool) -> int {
    if encode {
        (x + 1) % (SIDE as int)
    } else {
        (x + SIDE - 1) % (SIDE as int)
    }
}

/// The cells that the letters in cells `ka` and `kb` are replaced by: one
/// row down (up when decoding) in a shared column, one column right (left)
/// in a shared row, else the opposite corners of their rectangle.
pub open spec fn target_cells(ka: int, kb: int, encode: bool) -> (int, int) {
    let (ra, ca) = (ka / SIDE as int, ka % SIDE as int);
    let (rb, cb) = (kb / SIDE as int, kb % SIDE as int);
    if ca == cb {
        (next_line(ra, encode) * SIDE + ca, next_line(rb, encode) * SIDE + cb)
    } else if ra == rb {
        (ra * SIDE + next_line(ca, encode), rb * SIDE + next_line(cb, encode))
    } else {
        (ra * SIDE + cb, rb * SIDE + ca)
    }
}

/// The substitution of the letters in cells `ka` and `kb`.
pub open spec fn substitute_at(sq: Seq<u8>, ka: int, kb: int, encode: bool) -> (u8, u8) {
    let t = target_cells(ka, kb, encode);
    (sq[t.0], sq[t.1])
}

/// The substitution of a pair of letters in different cells.
pub open spec fn substitute_distinct(sq: Seq<u8>, a: int, b: int, encode: bool) -> (u8, u8) {
    substitute_at(sq, cell_index(sq, a), cell_index(sq, b), encode)
}

/// The substitution of the pair `(a, b)` of alphabet indices: a doubled
/// filler stays as it is, another doubled letter is paired with the filler.
pub open spec fn substitute(sq: Seq<u8>, a: int, b: int, encode: bool) -> (u8, u8) {
    if a == b {
        if a == FILLER_INDEX {
            (byte_of_index(a), byte_of_index(b))
        } else {
            substitute_distinct(sq, a, FILLER_INDEX as int, encode)
        }
    } else {
        substitute_distinct(sq, a, b, encode)
    }
}

/// Where a left-to-right pass over a text stands: the finished output, the
/// alphabet index of a letter that waits for its partner, and the bytes
/// passed through since that letter.
pub struct Scan {
    pub done: Seq<u8>,
    pub pending: Option<int>,
    pub gap: Seq<u8>,
}

/// A pair's two substituted letters with the passed-through bytes between them.
pub open spec fn emit(p: (u8, u8), gap: Seq<u8>) -> Seq<u8> {
    seq![p.0] + gap + seq![p.1]
}

/// The pass after one more byte `c`.
pub open spec fn scan_step(sq: Seq<u8>, st: Scan, c: u8, encode: bool) -> Scan {
    if !is_cipher_byte(c) {
        match st.pending {
            None => Scan { done: st.done.push(c), ..st },
            Some(_) => Scan { gap: st.gap.push(c), ..st },
        }
    } else {
        let b = index_of_byte(c);
        match st.pending {
            None => Scan { done: st.done, pending: Some(b), gap: Seq::empty() },
            Some(a) => if a == b {
                Scan {
                    done: st.done + emit(substitute(sq, a, FILLER_INDEX as int, encode), st.gap),
                    pending: Some(b),
                    gap: Seq::empty(),
                }
            } else {
                Scan {
                    done: st.done + emit(substitute(sq, a, b, encode), st.gap),
                    pending: None,
                    gap: Seq::empty(),
                }
            },
        }
    }
}

/// The pass over all of `text`.
pub open spec fn scan(sq: Seq<u8>, text: Seq<u8>, encode: bool) -> Scan
    decreases text.len(),
{
    if text.len() == 0 {
        Scan { done: Seq::empty(), pending: None, gap: Seq::empty() }
    } else {
        scan_step(sq, scan(sq, text.drop_last(), encode), text.last(), encode)
    }
}

/// The output once the text has ended: a letter still waiting is paired with
/// the filler.
pub open spec fn finish(sq: Seq<u8>, st: Scan, encode: bool) -> Seq<u8> {
    match st.pending {
        None => st.done,
        Some(a) => st.done + emit(substitute(sq, a, FILLER_INDEX as int, encode), st.gap),
    }
}

/// The bytes that encoding (or decoding) `text` with the square `sq` yields.
pub open spec fn transform(sq: Seq<u8>, text: Seq<u8>, encode: bool) -> Seq<u8> {
    finish(sq, scan(sq, text, encode), encode)
}

} // verus!
