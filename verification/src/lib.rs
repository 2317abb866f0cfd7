//! Classical text ciphers.
//!
//! Two of them move the characters of a text about and leave each as it is:
//! the rail fence cipher writes the text in a zig-zag over a number of rails
//! and reads the rails one after the other; the scytale cipher writes it
//! down the columns of a grid and reads the grid along its rows. To them a
//! text is a sequence of Unicode scalar values, and every character, letter
//! or not, is a position like any other.
//!
//! The others leave each character where it is and replace the letters `A`
//! to `Z` and `a` to `z`: Caesar and ROT13 by a fixed shift within the
//! alphabet, Vigenère by a shift that follows a key word, substitution by a
//! key alphabet. What is no letter passes through them unchanged.
//!
//! Each cipher comes with a model of what it computes, with functions that
//! are shown to compute it, and with proofs of what holds of the model:
//! that deciphering undoes enciphering, that the rail fence reads every
//! position exactly once, how long the result is.

pub mod ciphers;
pub mod common;
pub mod error;
pub mod text;
