//! The Caesar cipher: every letter moved on by a fixed number of places.

use vstd::prelude::*;
use vstd::string::StringExecFns;
use crate::common::{lemma_shifted_text_back, shift_text, shifted_text};

verus! {

/// A Caesar cipher with a fixed rotation.
#[derive(Debug)]
pub struct Caesar {
    rot: u8,
}

impl Caesar {
    #[verifier::type_invariant]
    spec fn in_range(self) -> bool {
        1 <= self.rot <= 26
    }

    /// The number of places by which the cipher moves a letter on.
    pub closed spec fn rotation(&self) -> int {
        self.rot as int
    }

    /// A cipher that moves letters on by `rot` places. The rotation lies
    /// between 1 and 26; any other is refused.
    pub fn new(rot: u8) -> (r: Result<Caesar, String>)
        ensures
            1 <= rot <= 26 ==> (r matches Ok(cipher) && cipher.rotation() == rot),
            !(1 <= rot <= 26) ==> (r matches Err(e) && e@
                == "Rotation must be between 1 through 26"@),
    {
        if rot < 1 || rot > 26 {
            Err(String::from_str("Rotation must be between 1 through 26"))
        } else {
            Ok(Caesar { rot })
        }
    }

    /// `plaintext` with each letter moved on by the rotation.
    pub fn encipher(&self, plaintext: &str) -> (ciphertext: String)
        ensures
            ciphertext@ == shifted_text(plaintext@, self.rotation()),
    {
        shift_text(plaintext, self.rot)
    }

    /// `ciphertext` with each letter moved back by the rotation, which is
    /// the same as moving it on by what the rotation lacks of a full turn.
    pub fn decipher(&self, ciphertext: &str) -> (plaintext: String)
        ensures
            plaintext@ == shifted_text(ciphertext@, 26 - self.rotation()),
    {
        proof {
            use_type_invariant(self);
        }
        shift_text(ciphertext, 26 - self.rot)
    }
}

/// Deciphering undoes enciphering, whatever the rotation.
pub proof fn lemma_caesar_round_trip(rotation: int, text: Seq<char>)
    ensures
        shifted_text(shifted_text(text, rotation), 26 - rotation) == text,
{
    lemma_shifted_text_back(text, rotation);
}

} // verus!
