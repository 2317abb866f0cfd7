//! The ciphers, one module each.

pub mod caesar;
pub mod railfence;
pub mod rot13;
pub mod scytale;
pub mod substitution;
pub mod vigenere;
