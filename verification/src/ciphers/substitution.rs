//! The substitution cipher: each letter of the alphabet replaced by the
//! letter that stands at its place in a key alphabet.

use vstd::prelude::*;
use vstd::string::StringExecFns;
use crate::common::{
    ALPHABET,
    classify,
    is_letter,
    is_lower,
    is_upper,
    lemma_alphabet,
    letter_index,
    marked_text,
};
use crate::text::{chars_of, string_of};

verus! {

// The key alphabet.

/// Whether the character at place `k` of `symbols` stood at an earlier
/// place already.
pub open spec fn repeats(symbols: Seq<(char, bool)>, k: int) -> bool {
    exists|j: int| 0 <= j < k && (#[trigger] symbols[j]).0 == symbols[k].0
}

/// Whether the character at place `k` of `symbols` cannot stand in a key
/// alphabet: it is not marked as alphabetic, or it repeats an earlier one.
pub open spec fn offends(symbols: Seq<(char, bool)>, k: int) -> bool {
    !symbols[k].1 || repeats(symbols, k)
}

/// Whether place `k` is the first at which `symbols` offends.
pub open spec fn first_offence(symbols: Seq<(char, bool)>, k: int) -> bool {
    &&& 0 <= k < symbols.len()
    &&& offends(symbols, k)
    &&& forall|j: int| 0 <= j < k ==> !offends(symbols, j)
}

/// What is said of a key whose first offence is at place `k`.
pub open spec fn refusal(symbols: Seq<(char, bool)>, k: int) -> Seq<char> {
    if symbols[k].1 {
        "Key alphabet must be unique"@
    } else {
        "Key must be alphabetic"@
    }
}

/// Whether `symbols` is a key alphabet: 26 characters, all marked as
/// alphabetic, no two alike.
pub open spec fn is_key_alphabet(symbols: Seq<(char, bool)>) -> bool {
    &&& symbols.len() == 26
    &&& forall|k: int| 0 <= k < 26 ==> !offends(symbols, k)
}

/// Whether `key` holds 26 upper-case letters, no two alike.
pub open spec fn is_upper_case_alphabet(key: Seq<char>) -> bool {
    &&& key.len() == 26
    &&& forall|i: int| 0 <= i < 26 ==> is_upper(#[trigger] key[i])
    &&& forall|i: int, j: int| 0 <= i < j < 26 ==> #[trigger] key[i] != #[trigger] key[j]
}

// The model.

/// The number of `c` within a byte: what is left of its code point when
/// all but the lowest eight bits are dropped.
pub open spec fn low_byte(c: char) -> int {
    (c as int) % 256
}

/// Whether the low byte of `c` can be moved from the upper-case letters to
/// the lower-case ones and stay a byte.
pub open spec fn can_lower(c: char) -> bool {
    65 <= low_byte(c) <= 223
}

/// The low byte of `c`, moved as far as `a` lies behind `A`. For an
/// upper-case letter that is the same letter in lower case.
pub open spec fn lowered(c: char) -> char {
    (low_byte(c) - 65 + 97) as char
}

/// The upper-case letter with the number of the letter `c`.
pub open spec fn upper_of(c: char) -> char {
    ('A' as int + letter_index(c)) as char
}

/// Whether `i` is the first place of `key` at which `c` stands.
pub open spec fn is_place_of(key: Seq<char>, c: char, i: int) -> bool {
    &&& 0 <= i < key.len()
    &&& key[i] == c
    &&& forall|j: int| 0 <= j < i ==> key[j] != c
}

/// The first place of `key` at which `c` stands.
pub open spec fn place_of(key: Seq<char>, c: char) -> int {
    choose|i: int| is_place_of(key, c, i)
}

/// What the cipher with the alphabet `key` puts for `c`: for an upper-case
/// letter the character of `key` at the letter's number; for a lower-case
/// letter that character lowered; for any other character itself.
pub open spec fn substituted(key: Seq<char>, c: char) -> char {
    if is_upper(c) {
        key[letter_index(c)]
    } else if is_lower(c) {
        lowered(key[letter_index(c)])
    } else {
        c
    }
}

/// What the cipher with the alphabet `key` reads `c` as: for an upper-case
/// letter the letter whose number is the place of `c` in `key`; for a
/// lower-case letter the same in lower case, by the place of its upper-case
/// form; for any other character itself.
pub open spec fn restored(key: Seq<char>, c: char) -> char {
    if is_upper(c) {
        ('A' as int + place_of(key, c)) as char
    } else if is_lower(c) {
        ('a' as int + place_of(key, upper_of(c))) as char
    } else {
        c
    }
}

/// Whether the cipher with the alphabet `key` can encipher `text`: for
/// each of its lower-case letters the key holds a character that can be
/// lowered.
pub open spec fn can_encipher(key: Seq<char>, text: Seq<char>) -> bool {
    forall|i: int|
        0 <= i < text.len() && is_lower(#[trigger] text[i]) ==> can_lower(
            key[letter_index(text[i])],
        )
}

/// Whether the cipher with the alphabet `key` can decipher `text`: each of
/// its letters stands in the key, in its upper-case form.
pub open spec fn can_decipher(key: Seq<char>, text: Seq<char>) -> bool {
    forall|i: int|
        0 <= i < text.len() && is_letter(#[trigger] text[i]) ==> key.contains(upper_of(text[i]))
}

// The cipher.

/// A substitution cipher with a fixed key alphabet.
#[derive(Debug)]
pub struct Substitution {
    key: &'static str,
}

impl Substitution {
    #[verifier::type_invariant]
    spec fn has_key_alphabet(self) -> bool {
        is_key_alphabet(marked_text(self.key@))
    }

    /// The key alphabet: the character at place 0 stands for `A`, the one
    /// at place 1 for `B`, and so on.
    pub closed spec fn alphabet(&self) -> Seq<char> {
        self.key@
    }

    /// A cipher with the key alphabet `key`, which must have 26 characters,
    /// all of them alphabetic and no two alike. A key of another length is
    /// refused for its length; any other for the first character that is
    /// not alphabetic or repeats an earlier one.
    pub fn new(key: &'static str) -> (r: Result<Substitution, String>)
        ensures
            is_key_alphabet(marked_text(key@)) <==> r is Ok,
            r matches Ok(cipher) ==> cipher.alphabet() == key@,
            key@.len() != 26 ==> (r matches Err(e) && e@ == "Key is not the correct length"@),
            forall|k: int|
                #![trigger first_offence(marked_text(key@), k)]
                key@.len() == 26 && first_offence(marked_text(key@), k) ==> (r matches Err(e)
                    && e@ == refusal(marked_text(key@), k)),
    {
        let symbols = classify(key);
        match Substitution::check_key(&symbols) {
            Ok(()) => Ok(Substitution { key }),
            Err(e) => Err(e),
        }
    }

    /// Accepts a key alphabet: 26 characters, all marked as alphabetic, no
    /// two alike. A key of another length is refused for its length; any
    /// other for the first character that is not marked or repeats an
    /// earlier one.
    pub fn check_key(symbols: &Vec<(char, bool)>) -> (r: Result<(), String>)
        ensures
            is_key_alphabet(symbols@) <==> r is Ok,
            symbols.len() != 26 ==> (r matches Err(e) && e@ == "Key is not the correct length"@),
            forall|k: int|
                #![trigger first_offence(symbols@, k)]
                symbols.len() == 26 && first_offence(symbols@, k) ==> (r matches Err(e) && e@
                    == refusal(symbols@, k)),
    {
        if symbols.len() != 26 {
            return Err(String::from_str("Key is not the correct length"));
        }
        let mut k: usize = 0;
        while k < 26
            invariant
                k <= 26 == symbols.len(),
                forall|j: int| 0 <= j < k ==> !offends(symbols@, j),
            decreases 26 - k,
        {
            if !symbols[k].1 {
                assert(first_offence(symbols@, k as int));
                return Err(String::from_str("Key must be alphabetic"));
            }
            let mut j: usize = 0;
            while j < k
                invariant
                    j <= k < 26 == symbols.len(),
                    symbols[k as int].1,
                    forall|i: int| 0 <= i < k ==> !offends(symbols@, i),
                    forall|i: int| 0 <= i < j ==> (#[trigger] symbols[i]).0 != symbols[k as int].0,
                decreases k - j,
            {
                if symbols[j].0 == symbols[k].0 {
                    assert(repeats(symbols@, k as int));
                    assert(first_offence(symbols@, k as int));
                    return Err(String::from_str("Key alphabet must be unique"));
                }
                j += 1;
            }
            k += 1;
        }
        Ok(())
    }

    /// `plaintext` with each letter replaced by the character that the key
    /// alphabet holds for it. Where the text has a lower-case letter, the
    /// key's character for it must be one that can be lowered.
    pub fn encipher(&self, plaintext: &str) -> (r: Result<String, &'static str>)
        requires
            can_encipher(self.alphabet(), plaintext@),
        ensures
            r matches Ok(ciphertext) && ciphertext@ == plaintext@.map_values(
                |c: char| substituted(self.alphabet(), c),
            ),
    {
        proof {
            use_type_invariant(self);
        }
        let key = chars_of(self.key);
        let symbols = chars_of(plaintext);
        let ghost wanted = plaintext@.map_values(|c: char| substituted(self.alphabet(), c));
        let mut ciphertext: Vec<char> = Vec::new();
        let mut i: usize = 0;
        while i < symbols.len()
            invariant
                i <= symbols.len(),
                symbols@ == plaintext@,
                key@ == self.alphabet(),
                key.len() == 26,
                can_encipher(self.alphabet(), plaintext@),
                wanted == plaintext@.map_values(|c: char| substituted(self.alphabet(), c)),
                ciphertext@ == wanted.take(i as int),
            decreases symbols.len() - i,
        {
            let c = symbols[i];
            let put = if 'A' <= c && c <= 'Z' {
                key[(c as u8 - 65) as usize]
            } else if 'a' <= c && c <= 'z' {
                assert(is_lower(plaintext@[i as int]));
                let byte = Substitution::low_byte_of(key[(c as u8 - 97) as usize]);
                (byte - 65 + 97) as char
            } else {
                c
            };
            ciphertext.push(put);
            assert(ciphertext@ =~= wanted.take(i + 1));
            i += 1;
        }
        assert(ciphertext@ =~= wanted);
        Ok(string_of(&ciphertext))
    }

    /// `ciphertext` with each letter replaced by the letter for which the
    /// key alphabet holds it. Each letter of the text must stand in the
    /// key alphabet, in its upper-case form.
    pub fn decipher(&self, ciphertext: &str) -> (r: Result<String, &'static str>)
        requires
            can_decipher(self.alphabet(), ciphertext@),
        ensures
            r matches Ok(plaintext) && plaintext@ == ciphertext@.map_values(
                |c: char| restored(self.alphabet(), c),
            ),
    {
        proof {
            use_type_invariant(self);
            lemma_alphabet();
        }
        let key = chars_of(self.key);
        let letters = chars_of(ALPHABET);
        let symbols = chars_of(ciphertext);
        let ghost wanted = ciphertext@.map_values(|c: char| restored(self.alphabet(), c));
        let mut plaintext: Vec<char> = Vec::new();
        let mut i: usize = 0;
        while i < symbols.len()
            invariant
                i <= symbols.len(),
                symbols@ == ciphertext@,
                key@ == self.alphabet(),
                key.len() == 26,
                letters@ == ALPHABET@,
                letters.len() == 26,
                forall|n: int| 0 <= n < 26 ==> #[trigger] letters@[n] == ('A' as int + n) as char,
                can_decipher(self.alphabet(), ciphertext@),
                wanted == ciphertext@.map_values(|c: char| restored(self.alphabet(), c)),
                plaintext@ == wanted.take(i as int),
            decreases symbols.len() - i,
        {
            let c = symbols[i];
            let read = if 'A' <= c && c <= 'Z' {
                assert(is_letter(ciphertext@[i as int]));
                let index = Substitution::position(&key, c);
                assert(letters@[index as int] == ('A' as int + index) as char);
                letters[index]
            } else if 'a' <= c && c <= 'z' {
                assert(is_letter(ciphertext@[i as int]));
                let index = Substitution::position(&key, (c as u8 - 97 + 65) as char);
                assert(letters@[index as int] == ('A' as int + index) as char);
                (letters[index] as u8 - 65 + 97) as char
            } else {
                c
            };
            plaintext.push(read);
            assert(plaintext@ =~= wanted.take(i + 1));
            i += 1;
        }
        assert(plaintext@ =~= wanted);
        Ok(string_of(&plaintext))
    }

    /// The number of `c` within a byte.
    fn low_byte_of(c: char) -> (byte: u8)
        ensures
            byte == low_byte(c),
    {
        (c as u32 % 256) as u8
    }

    /// The first place of `key` at which `c` stands.
    fn position(key: &Vec<char>, c: char) -> (index: usize)
        requires
            key@.contains(c),
            key.len() == 26,
        ensures
            index == place_of(key@, c),
            index < 26,
    {
        let mut index: usize = 0;
        while key[index] != c
            invariant
                index < key.len(),
                key@.contains(c),
                forall|j: int| 0 <= j < index ==> key@[j] != c,
            decreases key.len() - index,
        {
            index += 1;
            proof {
                let found = choose|j: int| 0 <= j < key@.len() && key@[j] == c;
                assert(index <= found);
            }
        }
        proof {
            lemma_place_of(key@, c, index as int);
        }
        index
    }
}

// What holds of the cipher.

/// With a key alphabet of upper-case letters every text can be
/// enciphered, what comes out can be deciphered, and deciphering gives the
/// text back.
pub proof fn lemma_substitution_round_trip(key: Seq<char>, text: Seq<char>)
    requires
        is_upper_case_alphabet(key),
    ensures
        can_encipher(key, text),
        can_decipher(key, text.map_values(|c: char| substituted(key, c))),
        text.map_values(|c: char| substituted(key, c)).map_values(|c: char| restored(key, c))
            == text,
{
    let there = text.map_values(|c: char| substituted(key, c));
    let back = there.map_values(|c: char| restored(key, c));
    assert forall|i: int| 0 <= i < text.len() implies {
        &&& is_lower(#[trigger] text[i]) ==> can_lower(key[letter_index(text[i])])
        &&& is_letter(there[i]) ==> key.contains(upper_of(there[i]))
        &&& back[i] == text[i]
    } by {
        let c = text[i];
        if is_letter(c) {
            let n = letter_index(c);
            let held = key[n];
            assert(is_upper(held));
            assert(is_place_of(key, held, n)) by {
                assert forall|j: int| 0 <= j < n implies key[j] != held by {
                    assert(key[j] != key[n]);
                }
            }
            lemma_place_of(key, held, n);
            if is_lower(c) {
                assert(low_byte(held) == held as int);
                assert(upper_of(lowered(held)) == held);
            }
        }
    }
    assert(back =~= text);
}

/// A key alphabet of upper-case letters holds every upper-case letter, so
/// that every text can be deciphered, and enciphering what comes out gives
/// the text back.
pub proof fn lemma_substitution_deciphers_all(key: Seq<char>, text: Seq<char>)
    requires
        is_upper_case_alphabet(key),
    ensures
        forall|c: char| is_upper(c) ==> key.contains(c),
        can_decipher(key, text),
        can_encipher(key, text.map_values(|c: char| restored(key, c))),
        text.map_values(|c: char| restored(key, c)).map_values(|c: char| substituted(key, c))
            == text,
{
    let numbers = Seq::new(26, |i: int| letter_index(key[i]));
    assert(numbers.no_duplicates()) by {
        assert forall|i: int, j: int| 0 <= i < 26 && 0 <= j < 26 && i != j implies numbers[i]
            != numbers[j] by {
            if i < j {
                assert(key[i] != key[j]);
            } else {
                assert(key[j] != key[i]);
            }
            assert(is_upper(key[i]) && is_upper(key[j]));
        }
    }
    numbers.unique_seq_to_set();
    vstd::set_lib::lemma_int_range(0, 26);
    let whole = vstd::set_lib::set_int_range(0, 26);
    assert(numbers.to_set().subset_of(whole)) by {
        assert forall|n: int| numbers.to_set().contains(n) implies whole.contains(n) by {
            let i = choose|i: int| 0 <= i < numbers.len() && numbers[i] == n;
            assert(is_upper(key[i]));
        }
    }
    vstd::set_lib::lemma_set_subset_finite(whole, numbers.to_set());
    vstd::set_lib::lemma_subset_equality(numbers.to_set(), whole);
    assert forall|c: char| is_upper(c) implies key.contains(c) by {
        assert(whole.contains(letter_index(c)));
        assert(numbers.to_set().contains(letter_index(c)));
        let i = choose|i: int| 0 <= i < numbers.len() && numbers[i] == letter_index(c);
        assert(is_upper(key[i]));
        assert(key[i] == c);
    }
    let read = text.map_values(|c: char| restored(key, c));
    let back = read.map_values(|c: char| substituted(key, c));
    assert forall|i: int| 0 <= i < text.len() implies {
        &&& is_letter(#[trigger] text[i]) ==> key.contains(upper_of(text[i]))
        &&& is_lower(read[i]) ==> can_lower(key[letter_index(read[i])])
        &&& back[i] == text[i]
    } by {
        let c = text[i];
        if is_letter(c) {
            let held = upper_of(c);
            assert(is_upper(held));
            assert(key.contains(held));
            let n = choose|n: int| 0 <= n < key.len() && key[n] == held;
            assert(is_place_of(key, held, n)) by {
                assert forall|j: int| 0 <= j < n implies key[j] != held by {
                    assert(key[j] != key[n]);
                }
            }
            lemma_place_of(key, held, n);
            assert(is_upper(key[letter_index(read[i])]));
        }
    }
    assert(back =~= text);
}

/// The place that `place_of` names is the first at which the character
/// stands.
pub proof fn lemma_place_of(key: Seq<char>, c: char, i: int)
    requires
        is_place_of(key, c, i),
    ensures
        place_of(key, c) == i,
{
    let chosen = place_of(key, c);
    assert(is_place_of(key, c, chosen));
    if chosen < i {
        assert(key[chosen] != c);
    } else if i < chosen {
        assert(key[i] != c);
    }
}

} // verus!
