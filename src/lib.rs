//! A Playfair cipher engine: a 5×5 key square built from a key, and the
//! digraph substitution that encodes and decodes text with it.
//!
//! Only lowercase `a`–`z` take part in the cipher; every other byte,
//! uppercase letters included, passes through unchanged. Callers that want
//! case-insensitive behaviour lowercase the text first.
pub mod alphabet;
pub mod cipher;
pub mod digraph;
pub mod laws;
pub mod square;

pub use cipher::{EncodingError, PlayfairCipher};
