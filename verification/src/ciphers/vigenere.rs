//! The Vigenère cipher: each letter of the text moved on by the letter of
//! the key that falls to it, the key repeating along the letters of the
//! text.

use vstd::prelude::*;
use vstd::string::StringExecFns;
use crate::common::{
    classify,
    is_letter,
    lemma_shifted_full_turn,
    lemma_shifted_letter,
    lemma_shifted_twice,
    letter_index,
    marked_text,
    shift_letter,
    shifted,
};
use crate::text::{chars_of, string_of};

verus! {

// The model.

/// Whether every character of `text` is one of the letters `A` to `Z` or
/// `a` to `z`.
pub open spec fn all_letters(text: Seq<char>) -> bool {
    forall|i: int| 0 <= i < text.len() ==> is_letter(#[trigger] text[i])
}

/// Whether no character of `text` is one of the letters `A` to `Z` or `a`
/// to `z`.
pub open spec fn no_letters(text: Seq<char>) -> bool {
    forall|i: int| 0 <= i < text.len() ==> !is_letter(#[trigger] text[i])
}

/// Whether every character of `symbols` is marked as alphabetic.
pub open spec fn all_marked(symbols: Seq<(char, bool)>) -> bool {
    forall|i: int| 0 <= i < symbols.len() ==> (#[trigger] symbols[i]).1
}

/// The number of letters among the first `n` characters of `text`.
pub open spec fn letters_before(text: Seq<char>, n: int) -> int
    decreases n,
{
    if n <= 0 {
        0
    } else {
        letters_before(text, n - 1) + if is_letter(text[n - 1]) {
            1int
        } else {
            0int
        }
    }
}

/// By how many places each letter of `key` moves a letter on: `a` and `A`
/// by none, `b` and `B` by one, and so on.
pub open spec fn key_offsets(key: Seq<char>) -> Seq<u8> {
    key.map_values(|c: char| letter_index(c) as u8)
}

/// The offsets that undo `offsets`: each is what the other lacks of a full
/// turn of the alphabet.
pub open spec fn inverse_offsets(offsets: Seq<u8>) -> Seq<u8> {
    offsets.map_values(|n: u8| ((26 - n) % 26) as u8)
}

/// `text` with each letter moved on by one of `filter`: the first letter by
/// the first offset, the second by the second, and from the start of
/// `filter` again when its end is reached. What is no letter stays where it
/// is and uses up no offset.
pub open spec fn vigenere(filter: Seq<u8>, text: Seq<char>) -> Seq<char> {
    Seq::new(
        text.len(),
        |i: int|
            if is_letter(text[i]) {
                shifted(text[i], filter[letters_before(text, i) % (filter.len() as int)] as int)
            } else {
                text[i]
            },
    )
}

// The cipher.

/// A Vigenère cipher with a fixed key.
#[derive(Debug)]
pub struct Vigenere {
    /// The key word.
    pub key: &'static str,
}

impl Vigenere {
    /// A cipher with the key word `key`, which must be alphabetic
    /// throughout.
    pub fn new(key: &'static str) -> (r: Result<Vigenere, String>)
        ensures
            all_marked(marked_text(key@)) <==> r is Ok,
            r matches Ok(cipher) ==> cipher.key@ == key@,
            r matches Err(e) ==> e@ == "Key must be alphabetic"@,
    {
        let symbols = classify(key);
        match Vigenere::check_key(&symbols) {
            Ok(()) => Ok(Vigenere { key }),
            Err(e) => Err(e),
        }
    }

    /// Accepts a key whose characters are all marked as alphabetic, and
    /// refuses any other.
    pub fn check_key(symbols: &Vec<(char, bool)>) -> (r: Result<(), String>)
        ensures
            all_marked(symbols@) <==> r is Ok,
            r matches Err(e) ==> e@ == "Key must be alphabetic"@,
    {
        let mut i: usize = 0;
        while i < symbols.len()
            invariant
                i <= symbols.len(),
                all_marked(symbols@.take(i as int)),
            decreases symbols.len() - i,
        {
            if !symbols[i].1 {
                return Err(String::from_str("Key must be alphabetic"));
            }
            i += 1;
        }
        assert(symbols@.take(i as int) =~= symbols@);
        Ok(())
    }

    /// `plaintext` with each letter moved on by the letter of the key that
    /// falls to it. The key must consist of the letters `A` to `Z` and `a`
    /// to `z`, and must not be empty unless the text has no letter.
    pub fn encipher(&self, plaintext: &str) -> (r: Result<String, &'static str>)
        requires
            all_letters(self.key@),
            self.key@.len() > 0 || no_letters(plaintext@),
        ensures
            r matches Ok(ciphertext) && ciphertext@ == vigenere(
                key_offsets(self.key@),
                plaintext@,
            ),
    {
        let filter = self.convert_key().unwrap();
        Vigenere::transpose(filter.as_slice(), plaintext)
    }

    /// `ciphertext` with each letter moved back by the letter of the key
    /// that falls to it. The key must consist of the letters `A` to `Z` and
    /// `a` to `z`, and must not be empty unless the text has no letter.
    pub fn decipher(&self, ciphertext: &str) -> (r: Result<String, &'static str>)
        requires
            all_letters(self.key@),
            self.key@.len() > 0 || no_letters(ciphertext@),
        ensures
            r matches Ok(plaintext) && plaintext@ == vigenere(
                inverse_offsets(key_offsets(self.key@)),
                ciphertext@,
            ),
    {
        let offsets = self.convert_key().unwrap();
        let mut filter: Vec<u8> = Vec::new();
        let mut i: usize = 0;
        while i < offsets.len()
            invariant
                i <= offsets.len(),
                offsets@ == key_offsets(self.key@),
                all_letters(self.key@),
                filter@ == inverse_offsets(offsets@).take(i as int),
            decreases offsets.len() - i,
        {
            let n = offsets[i];
            assert(n == letter_index(self.key@[i as int]) as u8);
            assert(is_letter(self.key@[i as int]));
            filter.push((26 - n) % 26);
            assert(filter@ =~= inverse_offsets(offsets@).take(i + 1));
            i += 1;
        }
        assert(filter@ =~= inverse_offsets(offsets@));
        Vigenere::transpose(filter.as_slice(), ciphertext)
    }

    /// Moves each letter of `text` on by the offset of `filter` that falls
    /// to it. `filter` must not be empty unless the text has no letter.
    pub fn transpose(filter: &[u8], text: &str) -> (r: Result<String, &'static str>)
        requires
            filter@.len() > 0 || no_letters(text@),
        ensures
            r matches Ok(moved) && moved@ == vigenere(filter@, text@),
    {
        let symbols = chars_of(text);
        let mut filter_index: usize = 0;
        let mut result: Vec<char> = Vec::new();
        let mut i: usize = 0;
        while i < symbols.len()
            invariant
                i <= symbols.len(),
                symbols@ == text@,
                filter@.len() > 0 || no_letters(text@),
                filter_index == letters_before(text@, i as int),
                filter_index <= i,
                result@ == vigenere(filter@, text@).take(i as int),
            decreases symbols.len() - i,
        {
            let c = symbols[i];
            if ('A' <= c && c <= 'Z') || ('a' <= c && c <= 'z') {
                assert(is_letter(text@[i as int]));
                result.push(shift_letter(c, filter[filter_index % filter.len()]));
                filter_index += 1;
            } else {
                result.push(c);
            }
            assert(result@ =~= vigenere(filter@, text@).take(i + 1));
            i += 1;
        }
        assert(result@ =~= vigenere(filter@, text@));
        Ok(string_of(&result))
    }

    /// The offsets by which the letters of the key move a letter on. A key
    /// with a character other than the letters `A` to `Z` and `a` to `z`
    /// has none.
    pub fn convert_key(&self) -> (r: Result<Vec<u8>, String>)
        ensures
            all_letters(self.key@) ==> (r matches Ok(offsets) && offsets@ == key_offsets(
                self.key@,
            )),
            !all_letters(self.key@) ==> (r matches Err(e) && e@ == "Invalid character in key"@),
    {
        let symbols = chars_of(self.key);
        let mut offsets: Vec<u8> = Vec::new();
        let mut i: usize = 0;
        while i < symbols.len()
            invariant
                i <= symbols.len(),
                symbols@ == self.key@,
                all_letters(self.key@.take(i as int)),
                offsets@ == key_offsets(self.key@).take(i as int),
            decreases symbols.len() - i,
        {
            let c = symbols[i];
            if 'A' <= c && c <= 'Z' {
                offsets.push((c as u8 - 65) % 26);
            } else if 'a' <= c && c <= 'z' {
                offsets.push((c as u8 - 97) % 26);
            } else {
                assert(!is_letter(self.key@[i as int]));
                return Err(String::from_str("Invalid character in key"));
            }
            assert(offsets@ =~= key_offsets(self.key@).take(i + 1));
            i += 1;
        }
        assert(self.key@.take(i as int) =~= self.key@);
        assert(offsets@ =~= key_offsets(self.key@));
        Ok(offsets)
    }
}

// What holds of the cipher.

/// Deciphering undoes enciphering, for every key that is not empty.
pub proof fn lemma_vigenere_round_trip(offsets: Seq<u8>, text: Seq<char>)
    requires
        offsets.len() > 0,
    ensures
        vigenere(inverse_offsets(offsets), vigenere(offsets, text)) == text,
{
    let there = vigenere(offsets, text);
    let back = vigenere(inverse_offsets(offsets), there);
    assert forall|i: int| 0 <= i < text.len() implies back[i] == text[i] by {
        lemma_vigenere_keeps_letters(offsets, text, i);
        if is_letter(text[i]) {
            let k = letters_before(text, i) % (offsets.len() as int);
            let on = offsets[k] as int;
            let off = inverse_offsets(offsets)[k] as int;
            assert(off == (26 - on) % 26);
            assert((on + off) % 26 == 0);
            lemma_shifted_twice(text[i], on, off);
            lemma_shifted_full_turn(text[i], (on + off) / 26);
        }
    }
    assert(back =~= text);
}

/// Enciphering keeps each letter a letter and each other character what it
/// is, so the key falls to the letters of the ciphertext as it fell to
/// those of the plaintext.
pub proof fn lemma_vigenere_keeps_letters(filter: Seq<u8>, text: Seq<char>, n: int)
    requires
        0 <= n <= text.len(),
    ensures
        vigenere(filter, text).len() == text.len(),
        forall|i: int|
            0 <= i < text.len() ==> is_letter(#[trigger] vigenere(filter, text)[i]) == is_letter(
                text[i],
            ),
        letters_before(vigenere(filter, text), n) == letters_before(text, n),
    decreases n,
{
    assert forall|i: int| 0 <= i < text.len() implies is_letter(
        #[trigger] vigenere(filter, text)[i],
    ) == is_letter(text[i]) by {
        let k = letters_before(text, i) % (filter.len() as int);
        lemma_shifted_letter(text[i], filter[k] as int);
    }
    if n > 0 {
        lemma_vigenere_keeps_letters(filter, text, n - 1);
    }
}

} // verus!
