//! Classical text ciphers over a configurable ordered alphabet.
//!
//! Every cipher strips the characters that are not in its alphabet, transforms the
//! remaining stream of alphabet positions, and writes the result back into the
//! skeleton of the input text, so that punctuation, spaces and other
//! non-members keep their places.
pub mod affine;
pub mod autokey;
pub mod caesar;
pub mod common;
pub mod transpose;
pub mod vigenere;
