//! Laws of the cipher, stated over the model of `digraph` and proved.
use vstd::prelude::*;
use crate::alphabet::{
    byte_of_index, index_of_byte, is_cipher_byte, is_square_letter, lemma_byte_round_trip,
    lemma_index_round_trip, ALPHABET_LEN, BYTE_I, BYTE_J, FILLER_INDEX,
};
use crate::digraph::{
    cell_index, emit, next_line, scan, scan_step, substitute, substitute_distinct, target_cells,
    transform, Scan, SIDE,
};
use crate::square::{covers_alphabet, is_square};
use vstd::utf8::{
    encode_scalar, encode_utf8, encode_utf8_valid_utf8, has_width_1_encoding, has_width_2_encoding,
    has_width_3_encoding, last_continuation_byte, leading_byte_width_2, leading_byte_width_3,
    leading_byte_width_4, second_last_continuation_byte, third_last_continuation_byte,
    valid_utf8, valid_utf8_concat,
};

verus! {

/// A text that pairs up with no filler: an even number of bytes, all of
/// them square letters (no `j`), the two letters of each pair distinct.
#[verifier::opaque]
pub open spec fn is_digraph_text(t: Seq<u8>) -> bool {
    &&& t.len() % 2 == 0
    &&& forall|i: int| 0 <= i < t.len() ==> is_square_letter(#[trigger] t[i])
    &&& forall|i: int| 0 <= i < t.len() / 2 ==> #[trigger] t[2 * i] != t[2 * i + 1]
}

/// The pairwise substitution of a text of pairs, pair by pair.
pub open spec fn pair_up(sq: Seq<u8>, t: Seq<u8>, encode: bool) -> Seq<u8>
    decreases t.len(),
{
    if t.len() < 2 {
        Seq::empty()
    } else {
        let p = substitute_distinct(
            sq,
            index_of_byte(t[t.len() - 2]),
            index_of_byte(t[t.len() - 1]),
            encode,
        );
        pair_up(sq, t.subrange(0, t.len() - 2), encode) + seq![p.0, p.1]
    }
}

/// The number of cipher letters in `s`.
pub open spec fn count_letters(s: Seq<u8>) -> nat
    decreases s.len(),
{
    if s.len() == 0 {
        0
    } else {
        count_letters(s.drop_last()) + if is_cipher_byte(s.last()) {
            1nat
        } else {
            0nat
        }
    }
}

/// The bytes of `s` that are not cipher letters, in order.
pub open spec fn passthrough(s: Seq<u8>) -> Seq<u8>
    decreases s.len(),
{
    if s.len() == 0 {
        Seq::empty()
    } else if is_cipher_byte(s.last()) {
        passthrough(s.drop_last())
    } else {
        passthrough(s.drop_last()).push(s.last())
    }
}

/// The alphabet index of a letter of `text` still waiting for its partner
/// after a pass over it; this does not depend on the square.
pub open spec fn pending_index(text: Seq<u8>) -> Option<int>
    decreases text.len(),
{
    if text.len() == 0 {
        None
    } else {
        let p = pending_index(text.drop_last());
        let c = text.last();
        if !is_cipher_byte(c) {
            p
        } else {
            match p {
                None => Some(index_of_byte(c)),
                Some(a) => if a == index_of_byte(c) {
                    Some(a)
                } else {
                    None
                },
            }
        }
    }
}

/// How many doubled letters a pass over `text` splits with a filler.
pub open spec fn split_count(text: Seq<u8>) -> nat
    decreases text.len(),
{
    if text.len() == 0 {
        0
    } else {
        let c = text.last();
        split_count(text.drop_last()) + if is_cipher_byte(c) && pending_index(text.drop_last())
            == Some(index_of_byte(c)) {
            1nat
        } else {
            0nat
        }
    }
}

/// `s` with every `j` written as `i`.
pub open spec fn merge_j(s: Seq<u8>) -> Seq<u8> {
    s.map_values(|c: u8| if c == BYTE_J { BYTE_I } else { c })
}

proof fn lemma_row_col(r: int, c: int)
    requires
        0 <= r < SIDE,
        0 <= c < SIDE,
    ensures
        (r * SIDE + c) / SIDE as int == r,
        (r * SIDE + c) % SIDE as int == c,
        0 <= r * SIDE + c < ALPHABET_LEN,
{
}

/// Target cells lie in the square.
proof fn lemma_target_cells(ka: int, kb: int, encode: bool)
    requires
        0 <= ka < ALPHABET_LEN,
        0 <= kb < ALPHABET_LEN,
    ensures
        0 <= target_cells(ka, kb, encode).0 < ALPHABET_LEN,
        0 <= target_cells(ka, kb, encode).1 < ALPHABET_LEN,
{
    let (ra, ca) = (ka / 5, ka % 5);
    let (rb, cb) = (kb / 5, kb % 5);
    if ca == cb {
        lemma_row_col(next_line(ra, encode), ca);
        lemma_row_col(next_line(rb, encode), cb);
    } else if ra == rb {
        lemma_row_col(ra, next_line(ca, encode));
        lemma_row_col(rb, next_line(cb, encode));
    } else {
        lemma_row_col(ra, cb);
        lemma_row_col(rb, ca);
    }
}

/// In a full square, each alphabet index has exactly one cell.
proof fn lemma_cell_index(sq: Seq<u8>, a: int)
    requires
        is_square(sq),
        covers_alphabet(sq),
        0 <= a < ALPHABET_LEN,
    ensures
        0 <= cell_index(sq, a) < ALPHABET_LEN,
        sq[cell_index(sq, a)] == byte_of_index(a),
        forall|k: int| 0 <= k < ALPHABET_LEN && sq[k] == byte_of_index(a) ==> k == cell_index(sq, a),
{
    assert(sq.contains(byte_of_index(a)));
}

/// The cell of the letter in cell `k` is `k`.
proof fn lemma_cell_of_cell(sq: Seq<u8>, k: int)
    requires
        is_square(sq),
        covers_alphabet(sq),
        0 <= k < ALPHABET_LEN,
    ensures
        0 <= index_of_byte(sq[k]) < ALPHABET_LEN,
        byte_of_index(index_of_byte(sq[k])) == sq[k],
        cell_index(sq, index_of_byte(sq[k])) == k,
{
    lemma_byte_round_trip(sq[k]);
    lemma_cell_index(sq, index_of_byte(sq[k]));
}

/// Every substitution yields two cipher letters.
#[verifier::spinoff_prover]
proof fn lemma_substitute_letters(sq: Seq<u8>, a: int, b: int, encode: bool)
    requires
        is_square(sq),
        covers_alphabet(sq),
        0 <= a < ALPHABET_LEN,
        0 <= b < ALPHABET_LEN,
    ensures
        is_cipher_byte(substitute(sq, a, b, encode).0),
        is_cipher_byte(substitute(sq, a, b, encode).1),
{
    let b2 = if a == b {
        FILLER_INDEX as int
    } else {
        b
    };
    lemma_cell_index(sq, a);
    lemma_cell_index(sq, b2);
    lemma_target_cells(cell_index(sq, a), cell_index(sq, b2), encode);
    lemma_index_round_trip(a);
}

/// Stepping back undoes stepping on, and stepping on is one to one.
proof fn lemma_next_line(x: int, y: int)
    requires
        0 <= x < SIDE,
        0 <= y < SIDE,
    ensures
        0 <= next_line(x, true) < SIDE,
        next_line(next_line(x, true), false) == x,
        x != y ==> next_line(x, true) != next_line(y, true),
{
}

/// On cells: decoding's target cells of encoding's target cells are the
/// cells started from, and two distinct cells go to two distinct cells.
#[verifier::spinoff_prover]
proof fn lemma_target_inverse(ka: int, kb: int)
    requires
        0 <= ka < ALPHABET_LEN,
        0 <= kb < ALPHABET_LEN,
        ka != kb,
    ensures
        ({
            let t = target_cells(ka, kb, true);
            &&& 0 <= t.0 < ALPHABET_LEN
            &&& 0 <= t.1 < ALPHABET_LEN
            &&& t.0 != t.1
            &&& target_cells(t.0, t.1, false) == (ka, kb)
        }),
{
    let (ra, ca) = (ka / 5, ka % 5);
    let (rb, cb) = (kb / 5, kb % 5);
    lemma_row_col(ra, ca);
    lemma_row_col(rb, cb);
    assert(ka == ra * 5 + ca);
    assert(kb == rb * 5 + cb);
    let t = target_cells(ka, kb, true);
    if ca == cb {
        lemma_next_line(ra, rb);
        lemma_next_line(rb, ra);
        let (ra2, rb2) = (next_line(ra, true), next_line(rb, true));
        lemma_row_col(ra2, ca);
        lemma_row_col(rb2, cb);
        assert(t == (ra2 * 5 + ca, rb2 * 5 + cb));
    } else if ra == rb {
        lemma_next_line(ca, cb);
        lemma_next_line(cb, ca);
        let (ca2, cb2) = (next_line(ca, true), next_line(cb, true));
        lemma_row_col(ra, ca2);
        lemma_row_col(rb, cb2);
        assert(t == (ra * 5 + ca2, rb * 5 + cb2));
    } else {
        lemma_row_col(ra, cb);
        lemma_row_col(rb, ca);
        assert(t == (ra * 5 + cb, rb * 5 + ca));
    }
}

/// Decoding undoes encoding on a pair of distinct letters, and the encoded
/// pair is again two distinct square letters.
#[verifier::spinoff_prover]
proof fn lemma_pair_inverse(sq: Seq<u8>, a: int, b: int)
    requires
        is_square(sq),
        covers_alphabet(sq),
        0 <= a < ALPHABET_LEN,
        0 <= b < ALPHABET_LEN,
        a != b,
    ensures
        ({
            let p = substitute_distinct(sq, a, b, true);
            &&& is_square_letter(p.0)
            &&& is_square_letter(p.1)
            &&& p.0 != p.1
            &&& substitute_distinct(sq, index_of_byte(p.0), index_of_byte(p.1), false) == (
                byte_of_index(a),
                byte_of_index(b),
            )
        }),
{
    lemma_cell_index(sq, a);
    lemma_cell_index(sq, b);
    lemma_index_round_trip(a);
    lemma_index_round_trip(b);
    let ka = cell_index(sq, a);
    let kb = cell_index(sq, b);
    lemma_target_inverse(ka, kb);
    let t = target_cells(ka, kb, true);
    lemma_cell_of_cell(sq, t.0);
    lemma_cell_of_cell(sq, t.1);
}

/// Two distinct square letters have distinct alphabet indices.
proof fn lemma_distinct_indices(c: u8, d: u8)
    requires
        is_square_letter(c),
        is_square_letter(d),
        c != d,
    ensures
        index_of_byte(c) != index_of_byte(d),
        0 <= index_of_byte(c) < ALPHABET_LEN,
        0 <= index_of_byte(d) < ALPHABET_LEN,
        byte_of_index(index_of_byte(c)) == c,
        byte_of_index(index_of_byte(d)) == d,
{
    lemma_byte_round_trip(c);
    lemma_byte_round_trip(d);
}

/// Dropping the last pair of a text of pairs leaves a text of pairs.
proof fn lemma_digraph_prefix(t: Seq<u8>)
    requires
        is_digraph_text(t),
        t.len() > 0,
    ensures
        t.len() >= 2,
        is_digraph_text(t.subrange(0, t.len() - 2)),
        is_square_letter(t[t.len() - 2]),
        is_square_letter(t[t.len() - 1]),
        t[t.len() - 2] != t[t.len() - 1],
        t.subrange(0, t.len() - 2) + seq![t[t.len() - 2], t[t.len() - 1]] == t,
{
    reveal(is_digraph_text);
    let n = t.len() as int;
    let t2 = t.subrange(0, n - 2);
    assert forall|i: int| 0 <= i < t2.len() / 2 implies #[trigger] t2[2 * i] != t2[2 * i + 1] by {
        assert(t[2 * i] != t[2 * i + 1]);
    }
    assert forall|i: int| 0 <= i < t2.len() implies is_square_letter(#[trigger] t2[i]) by {
        assert(is_square_letter(t[i]));
    }
    assert(t[2 * ((n - 2) / 2)] != t[2 * ((n - 2) / 2) + 1]);
    assert(is_square_letter(t[n - 2]) && is_square_letter(t[n - 1]));
    assert(t2 + seq![t[n - 2], t[n - 1]] =~= t);
}

/// Adding a pair of distinct square letters to a text of pairs gives a text
/// of pairs.
proof fn lemma_digraph_extend(t: Seq<u8>, x: u8, y: u8)
    requires
        is_digraph_text(t),
        is_square_letter(x),
        is_square_letter(y),
        x != y,
    ensures
        is_digraph_text(t + seq![x, y]),
{
    reveal(is_digraph_text);
    let e = t + seq![x, y];
    let n = t.len() as int;
    assert forall|i: int| 0 <= i < e.len() implies is_square_letter(#[trigger] e[i]) by {
        if i < n {
            assert(e[i] == t[i]);
        }
    }
    assert forall|i: int| 0 <= i < e.len() / 2 implies #[trigger] e[2 * i] != e[2 * i + 1] by {
        if i < n / 2 {
            assert(e[2 * i] == t[2 * i]);
            assert(e[2 * i + 1] == t[2 * i + 1]);
        }
    }
}

/// The pairwise substitution keeps the length of an even-length text.
proof fn lemma_pair_up_len(sq: Seq<u8>, t: Seq<u8>, encode: bool)
    requires
        t.len() % 2 == 0,
    ensures
        pair_up(sq, t, encode).len() == t.len(),
    decreases t.len(),
{
    if t.len() > 0 {
        lemma_pair_up_len(sq, t.subrange(0, t.len() - 2), encode);
    }
}

/// A pass over a text of pairs substitutes it pair by pair.
#[verifier::spinoff_prover]
proof fn lemma_scan_pairs(sq: Seq<u8>, t: Seq<u8>, encode: bool)
    requires
        is_digraph_text(t),
    ensures
        scan(sq, t, encode) == (Scan {
            done: pair_up(sq, t, encode),
            pending: None,
            gap: Seq::empty(),
        }),
    decreases t.len(),
{
    if t.len() > 0 {
        let n = t.len() as int;
        let t2 = t.subrange(0, n - 2);
        lemma_digraph_prefix(t);
        lemma_scan_pairs(sq, t2, encode);
        lemma_distinct_indices(t[n - 2], t[n - 1]);
        let s1 = t.drop_last();
        assert(s1.drop_last() =~= t2);
        let st1 = scan(sq, s1, encode);
        assert(st1 == scan_step(sq, scan(sq, t2, encode), t[n - 2], encode));
        let p = substitute_distinct(sq, index_of_byte(t[n - 2]), index_of_byte(t[n - 1]), encode);
        assert(pair_up(sq, t2, encode) + emit(p, Seq::empty()) =~= pair_up(sq, t, encode));
    }
}

/// The pairwise substitution of a text with one more pair.
proof fn lemma_pair_up_push(sq: Seq<u8>, t: Seq<u8>, x: u8, y: u8, encode: bool)
    ensures
        ({
            let p = substitute_distinct(sq, index_of_byte(x), index_of_byte(y), encode);
            pair_up(sq, t + seq![x, y], encode) == pair_up(sq, t, encode) + seq![p.0, p.1]
        }),
{
    let e = t + seq![x, y];
    assert(e.subrange(0, e.len() - 2) =~= t);
    assert(e[e.len() - 2] == x && e[e.len() - 1] == y);
}

/// One more pair keeps the encoding a text of pairs that decodes back.
#[verifier::spinoff_prover]
proof fn lemma_pair_up_inverse_step(sq: Seq<u8>, t2: Seq<u8>, x: u8, y: u8)
    requires
        is_square(sq),
        covers_alphabet(sq),
        is_digraph_text(pair_up(sq, t2, true)),
        pair_up(sq, pair_up(sq, t2, true), false) == t2,
        is_square_letter(x),
        is_square_letter(y),
        x != y,
    ensures
        is_digraph_text(pair_up(sq, t2 + seq![x, y], true)),
        pair_up(sq, pair_up(sq, t2 + seq![x, y], true), false) == t2 + seq![x, y],
{
    lemma_distinct_indices(x, y);
    let (a, b) = (index_of_byte(x), index_of_byte(y));
    lemma_pair_inverse(sq, a, b);
    let e2 = pair_up(sq, t2, true);
    let p = substitute_distinct(sq, a, b, true);
    lemma_pair_up_push(sq, t2, x, y, true);
    lemma_digraph_extend(e2, p.0, p.1);
    lemma_pair_up_push(sq, e2, p.0, p.1, false);
}

/// Encoding a text of pairs gives a text of pairs that decodes back to it.
#[verifier::spinoff_prover]
proof fn lemma_pair_up_inverse(sq: Seq<u8>, t: Seq<u8>)
    requires
        is_square(sq),
        covers_alphabet(sq),
        is_digraph_text(t),
    ensures
        is_digraph_text(pair_up(sq, t, true)),
        pair_up(sq, pair_up(sq, t, true), false) == t,
    decreases t.len(),
{
    if t.len() == 0 {
        reveal(is_digraph_text);
        assert(pair_up(sq, t, true) =~= Seq::<u8>::empty());
    } else {
        let n = t.len() as int;
        let t2 = t.subrange(0, n - 2);
        lemma_digraph_prefix(t);
        lemma_pair_up_inverse(sq, t2);
        lemma_pair_up_inverse_step(sq, t2, t[n - 2], t[n - 1]);
    }
}

/// Round trip: decoding the encoding of a text of distinct-letter pairs,
/// with no `j` and no other byte, gives the text back.
pub proof fn lemma_round_trip(sq: Seq<u8>, text: Seq<u8>)
    requires
        is_square(sq),
        covers_alphabet(sq),
        is_digraph_text(text),
    ensures
        transform(sq, transform(sq, text, true), false) == text,
{
    lemma_scan_pairs(sq, text, true);
    lemma_pair_up_inverse(sq, text);
    assert(transform(sq, text, true) == pair_up(sq, text, true));
    lemma_scan_pairs(sq, pair_up(sq, text, true), false);
}

proof fn lemma_count_concat(a: Seq<u8>, b: Seq<u8>)
    ensures
        count_letters(a + b) == count_letters(a) + count_letters(b),
        passthrough(a + b) == passthrough(a) + passthrough(b),
    decreases b.len(),
{
    if b.len() == 0 {
        assert(a + b =~= a);
        assert(passthrough(a) + passthrough(b) =~= passthrough(a));
    } else {
        lemma_count_concat(a, b.drop_last());
        assert((a + b).drop_last() =~= a + b.drop_last());
        if !is_cipher_byte(b.last()) {
            assert(passthrough(a) + passthrough(b.drop_last()).push(b.last()) =~= (passthrough(a)
                + passthrough(b.drop_last())).push(b.last()));
        }
    }
}

/// The counts of a single byte.
proof fn lemma_single(x: u8)
    ensures
        count_letters(seq![x]) == if is_cipher_byte(x) {
            1nat
        } else {
            0nat
        },
        passthrough(seq![x]) == if is_cipher_byte(x) {
            Seq::<u8>::empty()
        } else {
            seq![x]
        },
{
    let e = Seq::<u8>::empty();
    assert(seq![x].drop_last() =~= e);
    assert(count_letters(e) == 0);
    assert(passthrough(e) == e);
    assert(e.push(x) =~= seq![x]);
}

/// A pair's two letters around a passed-through gap.
proof fn lemma_emit_counts(p: (u8, u8), gap: Seq<u8>)
    requires
        is_cipher_byte(p.0),
        is_cipher_byte(p.1),
    ensures
        count_letters(emit(p, gap)) == 2 + count_letters(gap),
        passthrough(emit(p, gap)) == passthrough(gap),
{
    lemma_count_concat(seq![p.0] + gap, seq![p.1]);
    lemma_count_concat(seq![p.0], gap);
    assert(seq![p.0].drop_last() =~= Seq::<u8>::empty());
    assert(seq![p.1].drop_last() =~= Seq::<u8>::empty());
    lemma_single(p.0);
    lemma_single(p.1);
    assert(passthrough(gap) + Seq::<u8>::empty() =~= passthrough(gap));
    assert(Seq::<u8>::empty() + passthrough(gap) =~= passthrough(gap));
}

/// The counts that a pass state `st` over `text` keeps.
#[verifier::opaque]
spec fn counted(st: Scan, text: Seq<u8>) -> bool {
    &&& st.pending == pending_index(text)
    &&& st.pending matches Some(a) ==> 0 <= a < ALPHABET_LEN
    &&& st.pending is None ==> st.gap.len() == 0
    &&& count_letters(st.done) % 2 == 0
    &&& count_letters(st.gap) == 0
    &&& passthrough(st.gap) == st.gap
    &&& count_letters(st.done) + (if st.pending is Some {
        1nat
    } else {
        0nat
    }) == count_letters(text) + split_count(text)
    &&& passthrough(st.done) + st.gap == passthrough(text)
}

/// One more byte that is not a cipher letter keeps the counts.
#[verifier::spinoff_prover]
proof fn lemma_step_other(sq: Seq<u8>, st: Scan, text: Seq<u8>, c: u8, encode: bool)
    requires
        counted(st, text),
        !is_cipher_byte(c),
    ensures
        counted(scan_step(sq, st, c, encode), text.push(c)),
{
    reveal(counted);
    let t = text.push(c);
    assert(t.drop_last() =~= text);
    let next = scan_step(sq, st, c, encode);
    lemma_count_concat(st.done, seq![c]);
    lemma_count_concat(st.gap, seq![c]);
    assert(seq![c].drop_last() =~= Seq::<u8>::empty());
    lemma_single(c);
    assert(st.done.push(c) =~= st.done + seq![c]);
    assert(st.gap.push(c) =~= st.gap + seq![c]);
    if st.pending is None {
        assert(passthrough(st.done) + seq![c] =~= passthrough(t));
        assert(next.done + next.gap =~= next.done);
    } else {
        assert(passthrough(st.done) + (st.gap + seq![c]) =~= (passthrough(st.done)
            + st.gap).push(c));
    }
}

/// One more cipher letter keeps the counts.
#[verifier::spinoff_prover]
proof fn lemma_step_letter(sq: Seq<u8>, st: Scan, text: Seq<u8>, c: u8, encode: bool)
    requires
        is_square(sq),
        covers_alphabet(sq),
        counted(st, text),
        is_cipher_byte(c),
    ensures
        counted(scan_step(sq, st, c, encode), text.push(c)),
{
    reveal(counted);
    let t = text.push(c);
    assert(t.drop_last() =~= text);
    let next = scan_step(sq, st, c, encode);
    lemma_byte_round_trip(c);
    let b = index_of_byte(c);
    assert(next.done + next.gap =~= next.done);
    if let Some(a) = st.pending {
        let b2 = if a == b {
            FILLER_INDEX as int
        } else {
            b
        };
        let p = substitute(sq, a, b2, encode);
        lemma_substitute_letters(sq, a, b2, encode);
        lemma_emit_counts(p, st.gap);
        lemma_count_concat(st.done, emit(p, st.gap));
        assert(next.done == st.done + emit(p, st.gap));
    }
}

/// What a pass keeps track of, in counts: the letters so far with their
/// fillers, and the passed-through bytes in order.
#[verifier::spinoff_prover]
proof fn lemma_scan_counts(sq: Seq<u8>, text: Seq<u8>, encode: bool)
    requires
        is_square(sq),
        covers_alphabet(sq),
    ensures
        counted(scan(sq, text, encode), text),
    decreases text.len(),
{
    if text.len() > 0 {
        let prev = text.drop_last();
        let c = text.last();
        lemma_scan_counts(sq, prev, encode);
        assert(prev.push(c) =~= text);
        if is_cipher_byte(c) {
            lemma_step_letter(sq, scan(sq, prev, encode), prev, c, encode);
        } else {
            lemma_step_other(sq, scan(sq, prev, encode), prev, c, encode);
        }
    } else {
        reveal(counted);
        assert(Seq::<u8>::empty() + Seq::<u8>::empty() =~= Seq::<u8>::empty());
    }
}

/// What the end of a pass adds to the counts.
#[verifier::spinoff_prover]
proof fn lemma_finish_counts(sq: Seq<u8>, text: Seq<u8>, encode: bool)
    requires
        is_square(sq),
        covers_alphabet(sq),
    ensures
        ({
            let st = scan(sq, text, encode);
            let out = transform(sq, text, encode);
            &&& st.pending == pending_index(text)
            &&& count_letters(out) % 2 == 0
            &&& count_letters(out) == count_letters(text) + split_count(text) + (
            if st.pending is Some {
                1nat
            } else {
                0nat
            })
            &&& passthrough(out) == passthrough(text)
        }),
{
    lemma_scan_counts(sq, text, encode);
    reveal(counted);
    let st = scan(sq, text, encode);
    if let Some(a) = st.pending {
        let p = substitute(sq, a, FILLER_INDEX as int, encode);
        lemma_substitute_letters(sq, a, FILLER_INDEX as int, encode);
        lemma_emit_counts(p, st.gap);
        lemma_count_concat(st.done, emit(p, st.gap));
    } else {
        assert(passthrough(st.done) + st.gap =~= passthrough(st.done));
    }
}

/// Letter count: the output's cipher letters are the input's, plus one
/// filler for each doubled letter split, plus one for a letter left over at
/// the end; their number is even, and without splits it is the input's
/// count rounded up to even.
#[verifier::spinoff_prover]
pub proof fn lemma_letter_count(sq: Seq<u8>, text: Seq<u8>, encode: bool)
    requires
        is_square(sq),
        covers_alphabet(sq),
    ensures
        count_letters(transform(sq, text, encode)) % 2 == 0,
        count_letters(transform(sq, text, encode)) == count_letters(text) + split_count(text) + (
        if pending_index(text) is Some {
            1nat
        } else {
            0nat
        }),
        split_count(text) == 0 ==> count_letters(transform(sq, text, encode)) == count_letters(
            text,
        ) + count_letters(text) % 2,
{
    lemma_finish_counts(sq, text, encode);
}

/// Passthrough: the bytes that are not cipher letters come out unchanged
/// and in the same order.
#[verifier::spinoff_prover]
pub proof fn lemma_passthrough(sq: Seq<u8>, text: Seq<u8>, encode: bool)
    requires
        is_square(sq),
        covers_alphabet(sq),
    ensures
        passthrough(transform(sq, text, encode)) == passthrough(text),
{
    lemma_finish_counts(sq, text, encode);
}

proof fn lemma_scan_merge_j(sq: Seq<u8>, text: Seq<u8>, encode: bool)
    ensures
        scan(sq, merge_j(text), encode) == scan(sq, text, encode),
    decreases text.len(),
{
    if text.len() > 0 {
        lemma_scan_merge_j(sq, text.drop_last(), encode);
        assert(merge_j(text).drop_last() =~= merge_j(text.drop_last()));
    }
}

/// I/J merge: a text encodes (and decodes) exactly as the same text with
/// every `j` written as `i`.
pub proof fn lemma_merge_j(sq: Seq<u8>, text: Seq<u8>, encode: bool)
    ensures
        transform(sq, merge_j(text), encode) == transform(sq, text, encode),
{
    lemma_scan_merge_j(sq, text, encode);
}

/// A single ASCII byte is well-formed UTF-8.
proof fn lemma_ascii_valid(x: u8)
    requires
        x < 0x80,
    ensures
        valid_utf8(seq![x]),
{
    let c = x as char;
    let v = c as u32;
    assert(v == x as u32);
    assert((v & 0x7F) as u8 == x) by (bit_vector)
        requires
            v == x as u32,
            x < 0x80,
    ;
    assert(encode_utf8(seq![c]) =~= encode_scalar(v) + encode_utf8(seq![c].drop_first()));
    assert(encode_utf8(seq![c]) =~= seq![x]);
    encode_utf8_valid_utf8(seq![c]);
}

/// The UTF-8 encoding of one more character.
proof fn lemma_encode_push(chars: Seq<char>, c: char)
    ensures
        encode_utf8(chars.push(c)) == encode_utf8(chars) + encode_scalar(c as u32),
    decreases chars.len(),
{
    if chars.len() == 0 {
        assert(chars.push(c).drop_first() =~= Seq::<char>::empty());
        assert(chars.push(c)[0] == c);
        assert(encode_utf8(Seq::<char>::empty()) == Seq::<u8>::empty());
        assert(encode_utf8(chars) == Seq::<u8>::empty());
        assert(encode_scalar(c as u32) + Seq::<u8>::empty() =~= encode_scalar(c as u32));
        assert(Seq::<u8>::empty() + encode_scalar(c as u32) =~= encode_scalar(c as u32));
    } else {
        lemma_encode_push(chars.drop_first(), c);
        assert(chars.push(c).drop_first() =~= chars.drop_first().push(c));
        assert(chars.push(c)[0] == chars[0]);
        assert(encode_scalar(chars[0] as u32) + (encode_utf8(chars.drop_first()) + encode_scalar(
            c as u32,
        )) =~= encode_scalar(chars[0] as u32) + encode_utf8(chars.drop_first()) + encode_scalar(
            c as u32,
        ));
    }
}

/// A lowercase ASCII letter is encoded as its one byte; every byte of any
/// other character's encoding is not a cipher letter.
#[verifier::spinoff_prover]
proof fn lemma_scalar_bytes(c: char)
    ensures
        valid_utf8(encode_scalar(c as u32)),
        ('a' <= c <= 'z') ==> encode_scalar(c as u32) == seq![c as u8] && is_cipher_byte(
            c as u8,
        ),
        !('a' <= c <= 'z') ==> forall|i: int|
            0 <= i < encode_scalar(c as u32).len() ==> !is_cipher_byte(
                #[trigger] encode_scalar(c as u32)[i],
            ),
{
    let v = c as u32;
    assert(encode_utf8(seq![c]) =~= encode_scalar(v) + encode_utf8(seq![c].drop_first()));
    assert(encode_utf8(seq![c]) =~= encode_scalar(v));
    encode_utf8_valid_utf8(seq![c]);
    if has_width_1_encoding(v) {
        assert((v & 0x7F) as u8 == v as u8) by (bit_vector)
            requires
                v <= 0x7F,
        ;
    } else if has_width_2_encoding(v) {
        assert(leading_byte_width_2(v) >= 0xC0) by (bit_vector);
        assert(last_continuation_byte(v) >= 0x80) by (bit_vector);
    } else if has_width_3_encoding(v) {
        assert(leading_byte_width_3(v) >= 0xE0) by (bit_vector);
        assert(second_last_continuation_byte(v) >= 0x80) by (bit_vector);
        assert(last_continuation_byte(v) >= 0x80) by (bit_vector);
    } else {
        assert(leading_byte_width_4(v) >= 0xF0) by (bit_vector);
        assert(third_last_continuation_byte(v) >= 0x80) by (bit_vector);
        assert(second_last_continuation_byte(v) >= 0x80) by (bit_vector);
        assert(last_continuation_byte(v) >= 0x80) by (bit_vector);
    }
}

/// A block of bytes none of which is a cipher letter is passed through as a
/// whole.
proof fn lemma_scan_block(sq: Seq<u8>, text: Seq<u8>, block: Seq<u8>, encode: bool)
    requires
        forall|i: int| 0 <= i < block.len() ==> !is_cipher_byte(#[trigger] block[i]),
    ensures
        ({
            let st = scan(sq, text, encode);
            scan(sq, text + block, encode) == if st.pending is None {
                Scan { done: st.done + block, ..st }
            } else {
                Scan { gap: st.gap + block, ..st }
            }
        }),
    decreases block.len(),
{
    let st = scan(sq, text, encode);
    if block.len() == 0 {
        assert(text + block =~= text);
        assert(st.done + block =~= st.done);
        assert(st.gap + block =~= st.gap);
    } else {
        let b2 = block.drop_last();
        lemma_scan_block(sq, text, b2, encode);
        assert((text + block).drop_last() =~= text + b2);
        assert(!is_cipher_byte(block[block.len() - 1]));
        assert((st.done + b2).push(block.last()) =~= st.done + block);
        assert((st.gap + b2).push(block.last()) =~= st.gap + block);
    }
}

/// Over the encoding of whole characters, the finished output and the
/// passed-through gap of a pass are well-formed UTF-8.
#[verifier::spinoff_prover]
proof fn lemma_scan_valid(sq: Seq<u8>, chars: Seq<char>, encode: bool)
    requires
        is_square(sq),
        covers_alphabet(sq),
    ensures
        valid_utf8(scan(sq, encode_utf8(chars), encode).done),
        valid_utf8(scan(sq, encode_utf8(chars), encode).gap),
        scan(sq, encode_utf8(chars), encode).pending matches Some(a) ==> 0 <= a < ALPHABET_LEN,
    decreases chars.len(),
{
    let text = encode_utf8(chars);
    if chars.len() == 0 {
        assert(valid_utf8(Seq::<u8>::empty()));
    } else {
        let prev = chars.drop_last();
        let c = chars.last();
        lemma_scan_valid(sq, prev, encode);
        lemma_encode_push(prev, c);
        assert(prev.push(c) =~= chars);
        lemma_scalar_bytes(c);
        let st = scan(sq, encode_utf8(prev), encode);
        let block = encode_scalar(c as u32);
        if 'a' <= c <= 'z' {
            let x = c as u8;
            assert(encode_utf8(prev) + block =~= encode_utf8(prev).push(x));
            assert((encode_utf8(prev).push(x)).drop_last() =~= encode_utf8(prev));
            lemma_byte_round_trip(x);
            if let Some(a) = st.pending {
                let b = index_of_byte(x);
                let b2 = if a == b {
                    FILLER_INDEX as int
                } else {
                    b
                };
                let p = substitute(sq, a, b2, encode);
                lemma_substitute_letters(sq, a, b2, encode);
                lemma_ascii_valid(p.0);
                lemma_ascii_valid(p.1);
                valid_utf8_concat(seq![p.0], st.gap);
                valid_utf8_concat(seq![p.0] + st.gap, seq![p.1]);
                valid_utf8_concat(st.done, emit(p, st.gap));
            }
            assert(valid_utf8(Seq::<u8>::empty()));
        } else {
            lemma_scan_block(sq, encode_utf8(prev), block, encode);
            valid_utf8_concat(st.done, block);
            valid_utf8_concat(st.gap, block);
        }
    }
}

/// Encoding or decoding well-formed UTF-8 text gives well-formed UTF-8.
pub proof fn lemma_output_utf8(sq: Seq<u8>, chars: Seq<char>, encode: bool)
    requires
        is_square(sq),
        covers_alphabet(sq),
    ensures
        valid_utf8(transform(sq, encode_utf8(chars), encode)),
{
    lemma_scan_valid(sq, chars, encode);
    let st = scan(sq, encode_utf8(chars), encode);
    if let Some(a) = st.pending {
        let p = substitute(sq, a, FILLER_INDEX as int, encode);
        lemma_substitute_letters(sq, a, FILLER_INDEX as int, encode);
        lemma_ascii_valid(p.0);
        lemma_ascii_valid(p.1);
        valid_utf8_concat(seq![p.0], st.gap);
        valid_utf8_concat(seq![p.0] + st.gap, seq![p.1]);
        valid_utf8_concat(st.done, emit(p, st.gap));
    }
}

} // verus!
