//! The mathematical model of a key square: which alphabet index sits in
//! each of the 25 cells, read row by row.
use vstd::prelude::*;
use vstd::set_lib::{lemma_int_range, lemma_len_subset, set_int_range};
use crate::alphabet::{
    byte_of_index, index_of_byte, is_cipher_byte, is_square_letter, lemma_byte_round_trip,
    lemma_index_round_trip, ALPHABET_LEN,
};

verus! {

/// Every entry of `s` is an alphabet index.
pub open spec fn in_alphabet(s: Seq<int>) -> bool {
    forall|k: int| 0 <= k < s.len() ==> 0 <= #[trigger] s[k] < ALPHABET_LEN
}

/// The distinct alphabet indices of the key's lowercase letters, in order of
/// first occurrence.
pub open spec fn key_letters(key: Seq<u8>) -> Seq<int>
    decreases key.len(),
{
    if key.len() == 0 {
        Seq::empty()
    } else {
        let prev = key_letters(key.drop_last());
        let c = key.last();
        if is_cipher_byte(c) && !prev.contains(index_of_byte(c)) {
            prev.push(index_of_byte(c))
        } else {
            prev
        }
    }
}

/// The indices below `n` that `used` lacks, in ascending order.
pub open spec fn fill_letters(used: Seq<int>, n: nat) -> Seq<int>
    decreases n,
{
    if n == 0 {
        Seq::empty()
    } else {
        let prev = fill_letters(used, (n - 1) as nat);
        if used.contains(n - 1) {
            prev
        } else {
            prev.push(n - 1)
        }
    }
}

/// The alphabet index of each cell, row by row: the key's letters first, then
/// the rest of the alphabet in ascending order.
pub open spec fn square_order(key: Seq<u8>) -> Seq<int> {
    key_letters(key) + fill_letters(key_letters(key), ALPHABET_LEN as nat)
}

/// The letter of each cell of the square built from `key`, row by row.
pub open spec fn square_of(key: Seq<u8>) -> Seq<u8> {
    Seq::new(ALPHABET_LEN as nat, |k: int| byte_of_index(square_order(key)[k]))
}

/// A key square: 25 distinct letters of the cipher alphabet, row by row.
pub open spec fn is_square(sq: Seq<u8>) -> bool {
    &&& sq.len() == ALPHABET_LEN
    &&& forall|k: int| 0 <= k < ALPHABET_LEN ==> is_square_letter(#[trigger] sq[k])
    &&& forall|k1: int, k2: int|
        0 <= k1 < ALPHABET_LEN && 0 <= k2 < ALPHABET_LEN && k1 != k2 ==> #[trigger] sq[k1]
            != #[trigger] sq[k2]
}

/// Each alphabet index has exactly one cell of the square.
pub open spec fn covers_alphabet(sq: Seq<u8>) -> bool {
    forall|i: int| 0 <= i < ALPHABET_LEN ==> sq.contains(#[trigger] byte_of_index(i))
}

pub proof fn lemma_key_letters(key: Seq<u8>)
    ensures
        key_letters(key).no_duplicates(),
        in_alphabet(key_letters(key)),
    decreases key.len(),
{
    if key.len() > 0 {
        lemma_key_letters(key.drop_last());
        let c = key.last();
        if is_cipher_byte(c) {
            lemma_byte_round_trip(c);
        }
    }
}

#[verifier::spinoff_prover]

pub proof fn lemma_fill_letters(used: Seq<int>, n: nat)
    requires
        n <= ALPHABET_LEN,
    ensures
        fill_letters(used, n).no_duplicates(),
        in_alphabet(fill_letters(used, n)),
        forall|x: int| #[trigger]
            fill_letters(used, n).contains(x) <==> 0 <= x < n && !used.contains(x),
    decreases n,
{
    if n > 0 {
        lemma_fill_letters(used, (n - 1) as nat);
        let prev = fill_letters(used, (n - 1) as nat);
        if !used.contains(n - 1) {
            assert forall|x: int| #[trigger]
                prev.push(n - 1).contains(x) <==> prev.contains(x) || x == n - 1 by {
                let p = prev.push(n - 1);
                if p.contains(x) {
                    let k = choose|k: int| 0 <= k < p.len() && #[trigger] p[k] == x;
                    if k < prev.len() {
                        assert(prev[k] == x);
                    }
                } else if x == n - 1 {
                    assert(p[prev.len() as int] == x);
                } else if prev.contains(x) {
                    let k = choose|k: int| 0 <= k < prev.len() && #[trigger] prev[k] == x;
                    assert(p[k] == x);
                }
            }
            assert(!prev.contains(n - 1));
            assert forall|k1: int, k2: int|
                0 <= k1 < prev.len() + 1 && 0 <= k2 < prev.len() + 1 && k1 != k2 implies
                #[trigger] prev.push(n - 1)[k1] != #[trigger] prev.push(n - 1)[k2] by {
                if k1 == prev.len() {
                    assert(prev[k2] == prev.push(n - 1)[k2]);
                } else if k2 == prev.len() {
                    assert(prev[k1] == prev.push(n - 1)[k1]);
                }
            }
        }
    }
}

/// A duplicate-free sequence of alphabet indices has at most 25 entries, and
/// exactly 25 when it holds every index.
pub proof fn lemma_alphabet_seq_len(s: Seq<int>)
    requires
        s.no_duplicates(),
        in_alphabet(s),
    ensures
        s.len() <= ALPHABET_LEN,
        (forall|i: int| 0 <= i < ALPHABET_LEN ==> s.contains(i)) ==> s.len() == ALPHABET_LEN,
{
    s.unique_seq_to_set();
    lemma_int_range(0, ALPHABET_LEN as int);
    let range = set_int_range(0, ALPHABET_LEN as int);
    assert(s.to_set().subset_of(range));
    lemma_len_subset(s.to_set(), range);
    if forall|i: int| 0 <= i < ALPHABET_LEN ==> s.contains(i) {
        assert(s.to_set() =~= range);
    }
}

/// The cell order of a square is a permutation of the alphabet indices.
#[verifier::spinoff_prover]
pub proof fn lemma_square_order(key: Seq<u8>)
    ensures
        square_order(key).len() == ALPHABET_LEN,
        square_order(key).no_duplicates(),
        in_alphabet(square_order(key)),
        forall|i: int| 0 <= i < ALPHABET_LEN ==> #[trigger] square_order(key).contains(i),
{
    let kl = key_letters(key);
    let fl = fill_letters(kl, ALPHABET_LEN as nat);
    let order = square_order(key);
    lemma_key_letters(key);
    lemma_fill_letters(kl, ALPHABET_LEN as nat);
    assert forall|k1: int, k2: int|
        0 <= k1 < order.len() && 0 <= k2 < order.len() && k1 != k2 implies order[k1]
        != order[k2] by {
        if k1 < kl.len() && k2 >= kl.len() {
            assert(fl.contains(order[k2]));
        } else if k2 < kl.len() && k1 >= kl.len() {
            assert(fl.contains(order[k1]));
        }
    }
    assert forall|i: int| 0 <= i < ALPHABET_LEN implies #[trigger] order.contains(i) by {
        if kl.contains(i) {
            let k = choose|k: int| 0 <= k < kl.len() && kl[k] == i;
            assert(order[k] == i);
        } else {
            assert(fl.contains(i));
            let k = choose|k: int| 0 <= k < fl.len() && fl[k] == i;
            assert(order[kl.len() + k] == i);
        }
    }
    lemma_alphabet_seq_len(order);
}

/// The square built from any key holds each letter of the alphabet once.
#[verifier::spinoff_prover]
pub proof fn lemma_square_of(key: Seq<u8>)
    ensures
        is_square(square_of(key)),
        covers_alphabet(square_of(key)),
{
    let order = square_order(key);
    let sq = square_of(key);
    lemma_square_order(key);
    assert forall|k: int| 0 <= k < ALPHABET_LEN implies is_square_letter(#[trigger] sq[k]) by {
        lemma_index_round_trip(order[k]);
    }
    assert forall|k1: int, k2: int|
        0 <= k1 < ALPHABET_LEN && 0 <= k2 < ALPHABET_LEN && k1 != k2 implies #[trigger] sq[k1]
        != #[trigger] sq[k2] by {
        lemma_index_round_trip(order[k1]);
        lemma_index_round_trip(order[k2]);
    }
    assert forall|i: int| 0 <= i < ALPHABET_LEN implies sq.contains(
        #[trigger] byte_of_index(i),
    ) by {
        assert(order.contains(i));
        let k = choose|k: int| 0 <= k < order.len() && order[k] == i;
        assert(sq[k] == byte_of_index(i));
    }
}

} // verus!
