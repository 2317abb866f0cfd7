//! ROT13: every letter moved on by half the alphabet.

use vstd::prelude::*;
use crate::common::{lemma_shifted_text_back, shift_text, shifted_text};

verus! {

/// The ROT13 cipher.
#[derive(Debug)]
pub struct Rot13 {}

impl Rot13 {
    /// The cipher. It has no key, so this never fails.
    pub fn new() -> (r: Result<Rot13, String>)
        ensures
            r is Ok,
    {
        Ok(Rot13 {  })
    }

    /// `plaintext` with each letter moved on by 13 places. This never
    /// fails.
    pub fn encipher(&self, plaintext: &str) -> (r: Result<String, &'static str>)
        ensures
            r matches Ok(ciphertext) && ciphertext@ == shifted_text(plaintext@, 13),
    {
        Ok(shift_text(plaintext, 13))
    }

    /// `ciphertext` with each letter moved on by 13 places: the cipher is
    /// its own inverse. This never fails.
    pub fn decipher(&self, ciphertext: &str) -> (r: Result<String, &'static str>)
        ensures
            r matches Ok(plaintext) && plaintext@ == shifted_text(ciphertext@, 13),
    {
        Ok(shift_text(ciphertext, 13))
    }
}

/// Applying the cipher twice gives the text back.
pub proof fn lemma_rot13_twice(text: Seq<char>)
    ensures
        shifted_text(shifted_text(text, 13), 13) == text,
{
    lemma_shifted_text_back(text, 13);
}

} // verus!
