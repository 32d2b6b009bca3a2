//! The cipher engine: a key square packed for constant-time lookups, and the
//! encoding and decoding of text with it.
use vstd::prelude::*;
use vstd::string::StringSliceAdditionalSpecFns;
use vstd::utf8::{decode_utf8, decode_utf8_encode_utf8, encode_utf8, valid_utf8};
use crate::alphabet::{
    byte_of_index, lemma_byte_round_trip, letter_index, letter_of_index, ALPHABET_LEN,
    FILLER_INDEX,
};
use crate::digraph::{
    cell_index, emit, finish, letter_at, next_line, scan, scan_step, substitute, substitute_at,
    substitute_distinct, transform, Scan, SIDE,
};
use crate::laws::lemma_output_utf8;
use crate::square::{
    covers_alphabet, fill_letters, in_alphabet, is_square, key_letters, lemma_alphabet_seq_len,
    lemma_fill_letters, lemma_square_of, lemma_square_order, square_of, square_order,
};

verus! {

/// Declares `std::string::FromUtf8Error`, the error of `String::from_utf8`,
/// so that the wrapper below can return it; its contents are never read.
#[verifier::external_type_specification]
#[verifier::external_body]
pub struct ExFromUtf8Error(std::string::FromUtf8Error);

/// Marks an alphabet index that has no cell yet while a square is built.
const UNPLACED: u8 = 255;

/// Size of the packed letter table: rows and columns 0 to 7.
const TABLE_LEN: usize = 64;

/// The packed position of cell `k` (0 to 24, row by row): `row * 8 + col`,
/// with row and column counted from 1 to 5.
pub open spec fn cell_code(k: int) -> int {
    (k / SIDE as int + 1) * 8 + k % SIDE as int + 1
}

/// The 25 letters of a packed letter table, row by row.
spec fn grid_of(letters: Seq<u8>) -> Seq<u8> {
    Seq::new(ALPHABET_LEN as nat, |k: int| letters[cell_code(k)])
}

/// Rows 0 and 6 and columns 0 and 6 of the table repeat the opposite edge
/// of the square.
spec fn wrapped(letters: Seq<u8>) -> bool {
    &&& forall|r: int| 1 <= r <= 5 ==> #[trigger] row_wrapped(letters, r)
    &&& forall|c: int| 0 <= c <= 6 ==> #[trigger] col_wrapped(letters, c)
}

/// Columns 0 and 6 of table row `r` repeat columns 5 and 1.
spec fn row_wrapped(letters: Seq<u8>, r: int) -> bool {
    letters[r * 8] == letters[r * 8 + 5] && letters[r * 8 + 6] == letters[r * 8 + 1]
}

/// Rows 0 and 6 of table column `c` repeat rows 5 and 1.
spec fn col_wrapped(letters: Seq<u8>, c: int) -> bool {
    letters[c] == letters[40 + c] && letters[48 + c] == letters[8 + c]
}

/// The first `order.len()` cells hold the letters of `order`, and
/// `positions` records where each of them went.
spec fn placed(positions: Seq<u8>, letters: Seq<u8>, order: Seq<int>) -> bool {
    &&& positions.len() == ALPHABET_LEN
    &&& letters.len() == TABLE_LEN
    &&& order.no_duplicates()
    &&& in_alphabet(order)
    &&& order.len() <= ALPHABET_LEN
    &&& forall|a: int|
        0 <= a < ALPHABET_LEN ==> (#[trigger] positions[a] == UNPLACED <==> !order.contains(a))
    &&& forall|j: int|
        0 <= j < order.len() ==> positions[#[trigger] order[j]] == cell_code(j)
            && letters[cell_code(j)] == byte_of_index(order[j])
}

proof fn lemma_cell_code(k: int)
    requires
        0 <= k < ALPHABET_LEN,
    ensures
        cell_code(k) / 8 == k / SIDE as int + 1,
        cell_code(k) % 8 == k % SIDE as int + 1,
        9 <= cell_code(k) <= 45,
{
}

proof fn lemma_cell_code_injective(j: int, k: int)
    requires
        0 <= j < ALPHABET_LEN,
        0 <= k < ALPHABET_LEN,
        j != k,
    ensures
        cell_code(j) != cell_code(k),
{
    lemma_cell_code(j);
    lemma_cell_code(k);
}

/// Every entry of a wrapped table, border included, is the letter of the
/// square one step inward across the edge.
#[verifier::spinoff_prover]
proof fn lemma_table_lookup(letters: Seq<u8>, row: int, col: int)
    requires
        letters.len() == TABLE_LEN,
        wrapped(letters),
        0 <= row <= 6,
        0 <= col <= 6,
    ensures
        letters[row * 8 + col] == letter_at(
            grid_of(letters),
            (row + SIDE - 1) % SIDE as int,
            (col + SIDE - 1) % SIDE as int,
        ),
{
    let r = if row == 0 {
        5
    } else if row == 6 {
        1
    } else {
        row
    };
    let c = if col == 0 {
        5
    } else if col == 6 {
        1
    } else {
        col
    };
    assert(col_wrapped(letters, col));
    assert(letters[row * 8 + col] == letters[r * 8 + col]);
    assert(row_wrapped(letters, r));
    assert(letters[r * 8 + col] == letters[r * 8 + c]);
    let k = (r - 1) * 5 + (c - 1);
    lemma_cell_code(k);
    assert(cell_code(k) == r * 8 + c);
}

/// The pair that the packed table gives for the letters at packed positions
/// `pa` and `pb`.
spec fn table_pair(letters: Seq<u8>, pa: int, pb: int, encode: bool) -> (u8, u8) {
    if pa % 8 == pb % 8 {
        if encode {
            (letters[pa + 8], letters[pb + 8])
        } else {
            (letters[pa - 8], letters[pb - 8])
        }
    } else if pa / 8 == pb / 8 {
        if encode {
            (letters[pa + 1], letters[pb + 1])
        } else {
            (letters[pa - 1], letters[pb - 1])
        }
    } else {
        (letters[pa / 8 * 8 + pb % 8], letters[pb / 8 * 8 + pa % 8])
    }
}

/// The table entry `row * 8 + col`, with row and column 0 to 6, is the
/// letter of square row `r` and column `c`.
proof fn lemma_table_entry(letters: Seq<u8>, row: int, col: int, r: int, c: int)
    requires
        letters.len() == TABLE_LEN,
        wrapped(letters),
        0 <= row <= 6,
        0 <= col <= 6,
        r == (row + SIDE - 1) % SIDE as int,
        c == (col + SIDE - 1) % SIDE as int,
    ensures
        0 <= r < SIDE,
        0 <= c < SIDE,
        letters[row * 8 + col] == letter_at(grid_of(letters), r, c),
{
    lemma_table_lookup(letters, row, col);
}

/// The table lookups of a pair in one column.
#[verifier::spinoff_prover]
proof fn lemma_table_column(letters: Seq<u8>, ka: int, kb: int, encode: bool)
    requires
        letters.len() == TABLE_LEN,
        wrapped(letters),
        0 <= ka < ALPHABET_LEN,
        0 <= kb < ALPHABET_LEN,
        ka % 5 == kb % 5,
    ensures
        table_pair(letters, cell_code(ka), cell_code(kb), encode) == substitute_at(
            grid_of(letters),
            ka,
            kb,
            encode,
        ),
{
    let (ra, ca) = (ka / 5, ka % 5);
    let (rb, cb) = (kb / 5, kb % 5);
    lemma_cell_code(ka);
    lemma_cell_code(kb);
    if encode {
        lemma_table_entry(letters, ra + 2, ca + 1, next_line(ra, true), ca);
        lemma_table_entry(letters, rb + 2, cb + 1, next_line(rb, true), cb);
    } else {
        lemma_table_entry(letters, ra, ca + 1, next_line(ra, false), ca);
        lemma_table_entry(letters, rb, cb + 1, next_line(rb, false), cb);
    }
}

/// The table lookups of a pair in one row, in different columns.
#[verifier::spinoff_prover]
proof fn lemma_table_row(letters: Seq<u8>, ka: int, kb: int, encode: bool)
    requires
        letters.len() == TABLE_LEN,
        wrapped(letters),
        0 <= ka < ALPHABET_LEN,
        0 <= kb < ALPHABET_LEN,
        ka % 5 != kb % 5,
        ka / 5 == kb / 5,
    ensures
        table_pair(letters, cell_code(ka), cell_code(kb), encode) == substitute_at(
            grid_of(letters),
            ka,
            kb,
            encode,
        ),
{
    let (ra, ca) = (ka / 5, ka % 5);
    let (rb, cb) = (kb / 5, kb % 5);
    lemma_cell_code(ka);
    lemma_cell_code(kb);
    if encode {
        lemma_table_entry(letters, ra + 1, ca + 2, ra, next_line(ca, true));
        lemma_table_entry(letters, rb + 1, cb + 2, rb, next_line(cb, true));
    } else {
        lemma_table_entry(letters, ra + 1, ca, ra, next_line(ca, false));
        lemma_table_entry(letters, rb + 1, cb, rb, next_line(cb, false));
    }
}

/// The table lookups of a pair in different rows and columns.
#[verifier::spinoff_prover]
proof fn lemma_table_rectangle(letters: Seq<u8>, ka: int, kb: int, encode: bool)
    requires
        letters.len() == TABLE_LEN,
        wrapped(letters),
        0 <= ka < ALPHABET_LEN,
        0 <= kb < ALPHABET_LEN,
        ka % 5 != kb % 5,
        ka / 5 != kb / 5,
    ensures
        table_pair(letters, cell_code(ka), cell_code(kb), encode) == substitute_at(
            grid_of(letters),
            ka,
            kb,
            encode,
        ),
{
    let (ra, ca) = (ka / 5, ka % 5);
    let (rb, cb) = (kb / 5, kb % 5);
    lemma_cell_code(ka);
    lemma_cell_code(kb);
    lemma_table_entry(letters, ra + 1, cb + 1, ra, cb);
    lemma_table_entry(letters, rb + 1, ca + 1, rb, ca);
}

/// The packed table with its border performs the substitution of the
/// square's cells.
proof fn lemma_table_pair(letters: Seq<u8>, ka: int, kb: int, encode: bool)
    requires
        letters.len() == TABLE_LEN,
        wrapped(letters),
        0 <= ka < ALPHABET_LEN,
        0 <= kb < ALPHABET_LEN,
    ensures
        table_pair(letters, cell_code(ka), cell_code(kb), encode) == substitute_at(
            grid_of(letters),
            ka,
            kb,
            encode,
        ),
{
    if ka % 5 == kb % 5 {
        lemma_table_column(letters, ka, kb, encode);
    } else if ka / 5 == kb / 5 {
        lemma_table_row(letters, ka, kb, encode);
    } else {
        lemma_table_rectangle(letters, ka, kb, encode);
    }
}

/// The packed position of cell `k`.
fn cell_code_of(k: u8) -> (r: u8)
    requires
        k < ALPHABET_LEN,
    ensures
        r == cell_code(k as int),
{
    (k / SIDE + 1) * 8 + k % SIDE + 1
}

/// The one way a transform could fail: output bytes that are not UTF-8.
/// The output of a well-formed square on a `str` is always UTF-8, so no
/// call returns it.
#[derive(Debug, Clone, Copy, PartialEq, Eq)]
pub struct EncodingError;

/// Relies on `String::from_utf8`: it accepts exactly the byte sequences that
/// are well-formed UTF-8, and the string it returns holds their characters.
#[verifier::external_body]
fn string_from_utf8(bytes: Vec<u8>) -> (r: Result<String, std::string::FromUtf8Error>)
    ensures
        match r {
            Ok(s) => valid_utf8(bytes@) && s@ == decode_utf8(bytes@),
            Err(_) => !valid_utf8(bytes@),
        },
{
    String::from_utf8(bytes)
}

/// `r` is the text whose UTF-8 encoding is `out`.
pub open spec fn transformed(r: Result<String, EncodingError>, out: Seq<u8>) -> bool {
    &&& r is Ok
    &&& encode_utf8(r->Ok_0@) == out
    &&& r->Ok_0@ == decode_utf8(out)
}

/// The pass state `st` as the output buffer shows it: a waiting letter sits
/// in the buffer as its alphabet index, at `last_pos`.
spec fn shows(st: Scan, result: Seq<u8>, last_pos: Option<usize>) -> bool {
    match st.pending {
        None => result == st.done && last_pos is None,
        Some(a) => {
            &&& 0 <= a < ALPHABET_LEN
            &&& last_pos is Some
            &&& last_pos->0 == st.done.len()
            &&& result == st.done.push(a as u8) + st.gap
        },
    }
}

/// A Playfair cipher with a fixed key square.
pub struct PlayfairCipher {
    /// For each alphabet index, the packed position of its cell.
    positions: Vec<u8>,
    /// For each packed position, rows and columns 0 to 6, the letter there;
    /// rows and columns 0 and 6 repeat the opposite edge.
    letters: Vec<u8>,
}

impl View for PlayfairCipher {
    type V = Seq<u8>;

    /// The 25 letters of the key square, row by row.
    closed spec fn view(&self) -> Seq<u8> {
        grid_of(self.letters@)
    }
}

impl PlayfairCipher {
    #[verifier::type_invariant]
    spec fn well_formed(&self) -> bool {
        &&& self.positions@.len() == ALPHABET_LEN
        &&& self.letters@.len() == TABLE_LEN
        &&& is_square(grid_of(self.letters@))
        &&& covers_alphabet(grid_of(self.letters@))
        &&& wrapped(self.letters@)
        &&& forall|a: int|
            0 <= a < ALPHABET_LEN ==> {
                let k = #[trigger] cell_index(grid_of(self.letters@), a);
                &&& 0 <= k < ALPHABET_LEN
                &&& grid_of(self.letters@)[k] == byte_of_index(a)
                &&& self.positions@[a] == cell_code(k)
            }
    }

    /// Builds the key square of `key`: its distinct lowercase letters in order
    /// of first occurrence (`j` counted as `i`), then the rest of the alphabet
    /// in order. Every other byte of the key is skipped.
    #[verifier::spinoff_prover]
    pub fn new(key: &str) -> (r: Self)
        ensures
            r@ == square_of(key.spec_bytes()),
            is_square(r@),
            covers_alphabet(r@),
    {
        let bytes = key.as_bytes();
        let mut positions: Vec<u8> = Vec::new();
        let mut n: usize = 0;
        while n < ALPHABET_LEN as usize
            invariant
                n <= ALPHABET_LEN,
                positions@ == Seq::new(n as nat, |a: int| UNPLACED),
            decreases ALPHABET_LEN - n,
        {
            positions.push(UNPLACED);
            n += 1;
        }
        let mut letters: Vec<u8> = Vec::new();
        let mut n: usize = 0;
        while n < TABLE_LEN
            invariant
                n <= TABLE_LEN,
                letters@.len() == n,
            decreases TABLE_LEN - n,
        {
            letters.push(0);
            n += 1;
        }
        let mut count: u8 = 0;
        let ghost mut order: Seq<int> = Seq::empty();
        let mut i: usize = 0;
        // the key's own letters, first occurrence only
        while i < bytes.len()
            invariant
                bytes@ == key.spec_bytes(),
                i <= bytes@.len(),
                order == key_letters(bytes@.subrange(0, i as int)),
                placed(positions@, letters@, order),
                count as int == order.len(),
            decreases bytes@.len() - i,
        {
            let c = bytes[i];
            assert(bytes@.subrange(0, i + 1).drop_last() =~= bytes@.subrange(0, i as int));
            if let Some(a) = letter_index(c) {
                if positions[a as usize] == UNPLACED {
                    proof {
                        self::lemma_place(positions@, letters@, order, a as int);
                    }
                    let code = cell_code_of(count);
                    positions.set(a as usize, code);
                    letters.set(code as usize, letter_of_index(a));
                    count += 1;
                    proof {
                        order = order.push(a as int);
                    }
                }
            }
            i += 1;
        }
        assert(bytes@.subrange(0, bytes@.len() as int) =~= bytes@);
        let ghost used = order;
        proof {
            lemma_fill_letters(used, 0);
            assert(order =~= used + fill_letters(used, 0));
        }
        // the rest of the alphabet, in order
        let mut a: u8 = 0;
        while a < ALPHABET_LEN
            invariant
                used == key_letters(key.spec_bytes()),
                a <= ALPHABET_LEN,
                order == used + fill_letters(used, a as nat),
                placed(positions@, letters@, order),
                count as int == order.len(),
            decreases ALPHABET_LEN - a,
        {
            proof {
                lemma_fill_letters(used, a as nat);
                lemma_fill_letters(used, (a + 1) as nat);
                let fl = fill_letters(used, a as nat);
                assert(order.contains(a as int) <==> used.contains(a as int)) by {
                    if order.contains(a as int) {
                        let j = choose|j: int| 0 <= j < order.len() && order[j] == a;
                        if j >= used.len() {
                            assert(fl[j - used.len()] == a);
                            assert(fl.contains(a as int));
                        } else {
                            assert(used[j] == a);
                        }
                    }
                    if used.contains(a as int) {
                        let j = choose|j: int| 0 <= j < used.len() && used[j] == a;
                        assert(order[j] == a);
                    }
                }
            }
            let ghost before = order;
            if positions[a as usize] == UNPLACED {
                proof {
                    self::lemma_place(positions@, letters@, order, a as int);
                }
                let code = cell_code_of(count);
                positions.set(a as usize, code);
                letters.set(code as usize, letter_of_index(a));
                count += 1;
                proof {
                    order = order.push(a as int);
                }
            }
            proof {
                let fl = fill_letters(used, a as nat);
                assert(fill_letters(used, (a + 1) as nat) == if used.contains(a as int) {
                    fl
                } else {
                    fl.push(a as int)
                });
                if used.contains(a as int) {
                    assert(order == before);
                } else {
                    assert(order == before.push(a as int));
                }
                assert(order =~= used + fill_letters(used, (a + 1) as nat));
            }
            a += 1;
        }
        proof {
            lemma_square_order(key.spec_bytes());
            lemma_square_of(key.spec_bytes());
        }
        assert(order == square_order(key.spec_bytes()));
        let ghost grid = square_of(key.spec_bytes());
        assert(grid_of(letters@) =~= grid);
        // the wrap-around border
        let mut row: usize = 1;
        while row <= 5
            invariant
                1 <= row <= 6,
                letters@.len() == TABLE_LEN,
                grid_of(letters@) == grid,
                forall|r: int| 1 <= r < row ==> #[trigger] row_wrapped(letters@, r),
            decreases 6 - row,
        {
            let ghost prev = letters@;
            let left = letters[row * 8 + 5];
            letters.set(row * 8, left);
            let right = letters[row * 8 + 1];
            letters.set(row * 8 + 6, right);
            proof {
                assert forall|k: int| 0 <= k < ALPHABET_LEN implies grid_of(letters@)[k]
                    == grid[k] by {
                    lemma_cell_code(k);
                }
                assert(grid_of(letters@) =~= grid);
                assert forall|r: int| 1 <= r < row + 1 implies #[trigger] row_wrapped(
                    letters@,
                    r,
                ) by {
                    if r < row {
                        assert(row_wrapped(prev, r));
                    }
                }
            }
            row += 1;
        }
        let mut col: usize = 0;
        while col <= 6
            invariant
                col <= 7,
                letters@.len() == TABLE_LEN,
                grid_of(letters@) == grid,
                forall|r: int| 1 <= r <= 5 ==> #[trigger] row_wrapped(letters@, r),
                forall|c: int| 0 <= c < col ==> #[trigger] col_wrapped(letters@, c),
            decreases 7 - col,
        {
            let ghost prev = letters@;
            let top = letters[col + 40];
            letters.set(col, top);
            let bottom = letters[col + 8];
            letters.set(col + 48, bottom);
            proof {
                assert forall|k: int| 0 <= k < ALPHABET_LEN implies grid_of(letters@)[k]
                    == grid[k] by {
                    lemma_cell_code(k);
                }
                assert(grid_of(letters@) =~= grid);
                assert forall|r: int| 1 <= r <= 5 implies #[trigger] row_wrapped(letters@, r) by {
                    assert(row_wrapped(prev, r));
                }
                assert forall|c: int| 0 <= c < col + 1 implies #[trigger] col_wrapped(
                    letters@,
                    c,
                ) by {
                    if c < col {
                        assert(col_wrapped(prev, c));
                    }
                }
            }
            col += 1;
        }
        proof {
            assert forall|a: int| 0 <= a < ALPHABET_LEN implies {
                let k = #[trigger] cell_index(grid, a);
                &&& 0 <= k < ALPHABET_LEN
                &&& grid[k] == byte_of_index(a)
                &&& positions@[a] == cell_code(k)
            } by {
                assert(order.contains(a));
                let j = choose|j: int| 0 <= j < order.len() && order[j] == a;
                assert(grid[j] == byte_of_index(a));
                let k = cell_index(grid, a);
                assert(grid[k] == byte_of_index(a));
                assert(k == j);
            }
        }
        PlayfairCipher { positions, letters }
    }

    /// The letter in row `row` and column `col` of the key square, both
    /// counted from 0.
    pub fn letter(&self, row: usize, col: usize) -> (r: u8)
        requires
            row < SIDE,
            col < SIDE,
        ensures
            r == self@[row * SIDE + col],
    {
        proof {
            use_type_invariant(self);
        }
        self.letters[(row + 1) * 8 + col + 1]
    }

    /// Encodes `text`: lowercase letters are paired and substituted, every
    /// other byte passes through.
    pub fn encode(&self, text: &str) -> (r: Result<String, EncodingError>)
        ensures
            transformed(r, transform(self@, text.spec_bytes(), true)),
    {
        self.encode_or_decode(text, true)
    }

    /// Decodes `text`, the inverse of [`PlayfairCipher::encode`] on pairs of
    /// distinct letters.
    pub fn decode(&self, text: &str) -> (r: Result<String, EncodingError>)
        ensures
            transformed(r, transform(self@, text.spec_bytes(), false)),
    {
        self.encode_or_decode(text, false)
    }

    /// Encodes (`is_encode`) or decodes `text` in one left-to-right pass.
    #[verifier::spinoff_prover]
    pub fn encode_or_decode(&self, text: &str, is_encode: bool) -> (r: Result<
        String,
        EncodingError,
    >)
        ensures
            transformed(r, transform(self@, text.spec_bytes(), is_encode)),
    {
        let bytes = text.as_bytes();
        // A letter waiting for its partner sits in `result` as its alphabet
        // index, at `last_pos`, until the pair is substituted.
        let mut result: Vec<u8> = Vec::new();
        let mut last_pos: Option<usize> = None;
        let ghost mut st = Scan { done: Seq::empty(), pending: None, gap: Seq::empty() };
        let mut i: usize = 0;
        while i < bytes.len()
            invariant
                bytes@ == text.spec_bytes(),
                i <= bytes@.len(),
                st == scan(self@, bytes@.subrange(0, i as int), is_encode),
                shows(st, result@, last_pos),
            decreases bytes@.len() - i,
        {
            let c = bytes[i];
            proof {
                if let Some(a) = st.pending {
                    assert(result@[st.done.len() as int] == a as u8);
                }
            }
            assert(bytes@.subrange(0, i + 1).drop_last() =~= bytes@.subrange(0, i as int));
            let ghost next = scan_step(self@, st, c, is_encode);
            match letter_index(c) {
                None => {
                    result.push(c);
                    proof {
                        if let Some(a) = st.pending {
                            assert(result@ =~= next.done.push(a as u8) + next.gap);
                        }
                    }
                },
                Some(b) => {
                    proof {
                        lemma_byte_round_trip(c);
                    }
                    match last_pos {
                        Some(pos) => {
                            let a = result[pos];
                            if a == b {
                                let (p, q) = self.encode_or_decode_pair(a, FILLER_INDEX, is_encode);
                                result.set(pos, p);
                                result.push(q);
                                assert(result@ =~= st.done + emit((p, q), st.gap));
                                last_pos = Some(result.len());
                                result.push(b);
                                assert(result@ =~= next.done.push(b) + next.gap);
                            } else {
                                let (p, q) = self.encode_or_decode_pair(a, b, is_encode);
                                result.set(pos, p);
                                result.push(q);
                                assert(result@ =~= st.done + emit((p, q), st.gap));
                                last_pos = None;
                            }
                        },
                        None => {
                            last_pos = Some(result.len());
                            result.push(b);
                            assert(result@ =~= next.done.push(b) + next.gap);
                        },
                    }
                },
            }
            proof {
                st = next;
            }
            i += 1;
        }
        assert(bytes@.subrange(0, bytes@.len() as int) =~= bytes@);
        proof {
            if let Some(a) = st.pending {
                assert(result@[st.done.len() as int] == a as u8);
            }
        }
        if let Some(pos) = last_pos {
            let a = result[pos];
            let (p, q) = self.encode_or_decode_pair(a, FILLER_INDEX, is_encode);
            result.set(pos, p);
            result.push(q);
            assert(result@ =~= st.done + emit((p, q), st.gap));
        }
        assert(result@ =~= finish(self@, st, is_encode));
        proof {
            use_type_invariant(self);
            lemma_output_utf8(self@, text@, is_encode);
            decode_utf8_encode_utf8(result@);
        }
        match string_from_utf8(result) {
            Ok(s) => Ok(s),
            Err(_) => Err(EncodingError),
        }
    }

    /// Substitutes the pair of alphabet indices `(a, b)`.
    fn encode_or_decode_pair(&self, a: u8, b: u8, is_encode: bool) -> (r: (u8, u8))
        requires
            a < ALPHABET_LEN,
            b < ALPHABET_LEN,
        ensures
            r == substitute(self@, a as int, b as int, is_encode),
    {
        if a == b {
            if a == FILLER_INDEX {
                // a doubled filler has no rule of its own: it stays as it is
                let x = letter_of_index(a);
                (x, x)
            } else {
                self.substitute_cells(a, FILLER_INDEX, is_encode)
            }
        } else {
            self.substitute_cells(a, b, is_encode)
        }
    }

    /// Substitutes a pair by the column, row and rectangle rules.
    #[verifier::spinoff_prover]
    fn substitute_cells(&self, a: u8, b: u8, is_encode: bool) -> (r: (u8, u8))
        requires
            a < ALPHABET_LEN,
            b < ALPHABET_LEN,
        ensures
            r == substitute_distinct(self@, a as int, b as int, is_encode),
    {
        proof {
            use_type_invariant(self);
        }
        let pos_a = self.positions[a as usize];
        let pos_b = self.positions[b as usize];
        proof {
            lemma_table_pair(
                self.letters@,
                cell_index(self@, a as int),
                cell_index(self@, b as int),
                is_encode,
            );
        }
        let r = if pos_a % 8 == pos_b % 8 {
            if is_encode {
                (self.letters[pos_a as usize + 8], self.letters[pos_b as usize + 8])
            } else {
                (self.letters[pos_a as usize - 8], self.letters[pos_b as usize - 8])
            }
        } else if pos_a / 8 == pos_b / 8 {
            if is_encode {
                (self.letters[pos_a as usize + 1], self.letters[pos_b as usize + 1])
            } else {
                (self.letters[pos_a as usize - 1], self.letters[pos_b as usize - 1])
            }
        } else {
            (
                self.letters[(pos_a / 8 * 8 + pos_b % 8) as usize],
                self.letters[(pos_b / 8 * 8 + pos_a % 8) as usize],
            )
        };
        assert(r == table_pair(self.letters@, pos_a as int, pos_b as int, is_encode));
        r
    }
}

/// Placing the unplaced index `a` in the next free cell keeps the table
/// consistent.
#[verifier::spinoff_prover]
proof fn lemma_place(positions: Seq<u8>, letters: Seq<u8>, order: Seq<int>, a: int)
    requires
        placed(positions, letters, order),
        0 <= a < ALPHABET_LEN,
        positions[a] == UNPLACED,
    ensures
        order.len() < ALPHABET_LEN,
        placed(
            positions.update(a, cell_code(order.len() as int) as u8),
            letters.update(cell_code(order.len() as int), byte_of_index(a)),
            order.push(a),
        ),
{
    let next = order.push(a);
    assert(!order.contains(a));
    assert forall|k1: int, k2: int|
        0 <= k1 < next.len() && 0 <= k2 < next.len() && k1 != k2 implies #[trigger] next[k1]
        != #[trigger] next[k2] by {
        if k1 == order.len() {
            assert(order[k2] == next[k2]);
        } else if k2 == order.len() {
            assert(order[k1] == next[k1]);
        }
    }
    lemma_alphabet_seq_len(next);
    let k = order.len() as int;
    lemma_cell_code(k);
    let p2 = positions.update(a, cell_code(k) as u8);
    let l2 = letters.update(cell_code(k), byte_of_index(a));
    assert forall|b: int| 0 <= b < ALPHABET_LEN implies (#[trigger] p2[b] == UNPLACED
        <==> !next.contains(b)) by {
        if b != a {
            if order.contains(b) {
                let j = choose|j: int| 0 <= j < order.len() && order[j] == b;
                assert(next[j] == b);
            }
            if next.contains(b) {
                let j = choose|j: int| 0 <= j < next.len() && next[j] == b;
                assert(order[j] == b);
            }
        } else {
            assert(next[k] == a);
        }
    }
    assert forall|j: int| 0 <= j < next.len() implies p2[#[trigger] next[j]] == cell_code(j)
        && l2[cell_code(j)] == byte_of_index(next[j]) by {
        if j < k {
            lemma_cell_code_injective(j, k);
        }
    }
}

} // verus!
