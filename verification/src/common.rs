//! What the substitution ciphers share: the alphabet and the shift of a
//! letter within it.

use vstd::prelude::*;
use vstd::string::StringExecFns;
use crate::text::{chars_of, string_of};

verus! {

// Letters and shifts.

/// The upper-case letters, in order.
pub const ALPHABET: &'static str = "ABCDEFGHIJKLMNOPQRSTUVWXYZ";

/// The alphabet holds the 26 upper-case letters in order.
pub proof fn lemma_alphabet()
    ensures
        ALPHABET@.len() == 26,
        forall|i: int| 0 <= i < 26 ==> #[trigger] ALPHABET@[i] == ('A' as int + i) as char,
{
    reveal_strlit("ABCDEFGHIJKLMNOPQRSTUVWXYZ");
}

/// Whether `c` is one of the upper-case letters `A` to `Z`.
pub open spec fn is_upper(c: char) -> bool {
    'A' <= c <= 'Z'
}

/// Whether `c` is one of the lower-case letters `a` to `z`.
pub open spec fn is_lower(c: char) -> bool {
    'a' <= c <= 'z'
}

/// Whether `c` is one of the letters `A` to `Z` or `a` to `z`.
pub open spec fn is_letter(c: char) -> bool {
    is_upper(c) || is_lower(c)
}

/// The number of a letter in its alphabet, from 0 for `A` or `a` to 25 for
/// `Z` or `z`.
pub open spec fn letter_index(c: char) -> int {
    if is_upper(c) {
        c as int - 'A' as int
    } else {
        c as int - 'a' as int
    }
}

/// `c` moved `offset` letters on within its own case, going round from the
/// end of the alphabet to its start. What is no letter stays as it is.
pub open spec fn shifted(c: char, offset: int) -> char {
    if is_upper(c) {
        ('A' as int + (letter_index(c) + offset) % 26) as char
    } else if is_lower(c) {
        ('a' as int + (letter_index(c) + offset) % 26) as char
    } else {
        c
    }
}

/// `text` with each of its characters moved `offset` letters on.
pub open spec fn shifted_text(text: Seq<char>, offset: int) -> Seq<char> {
    text.map_values(|c: char| shifted(c, offset))
}

/// Moves `c` on by `offset` letters within its own case; what is no letter
/// is returned as it is.
pub fn shift_letter(c: char, offset: u8) -> (moved: char)
    ensures
        moved == shifted(c, offset as int),
{
    if 'A' <= c && c <= 'Z' {
        let index = c as u8 - 65;
        ((index + offset % 26) % 26 + 65) as char
    } else if 'a' <= c && c <= 'z' {
        let index = c as u8 - 97;
        ((index + offset % 26) % 26 + 97) as char
    } else {
        c
    }
}

/// Moves each letter of `text` on by `offset` letters.
pub fn shift_text(text: &str, offset: u8) -> (moved: String)
    ensures
        moved@ == shifted_text(text@, offset as int),
{
    let symbols = chars_of(text);
    let mut moved: Vec<char> = Vec::new();
    let mut i: usize = 0;
    while i < symbols.len()
        invariant
            i <= symbols.len(),
            symbols@ == text@,
            moved@ == shifted_text(text@, offset as int).take(i as int),
        decreases symbols.len() - i,
    {
        moved.push(shift_letter(symbols[i], offset));
        assert(moved@ =~= shifted_text(text@, offset as int).take(i + 1));
        i += 1;
    }
    string_of(&moved)
}

/// A shift keeps letters letters, in their case, and moves them by the
/// offset round the alphabet.
pub proof fn lemma_shifted_letter(c: char, offset: int)
    ensures
        is_upper(shifted(c, offset)) == is_upper(c),
        is_lower(shifted(c, offset)) == is_lower(c),
        is_letter(c) ==> letter_index(shifted(c, offset)) == (letter_index(c) + offset) % 26,
{
}

/// Shifts add up: moving on by `first` and then by `second` is moving on by
/// their sum.
pub proof fn lemma_shifted_twice(c: char, first: int, second: int)
    ensures
        shifted(shifted(c, first), second) == shifted(c, first + second),
{
    lemma_shifted_letter(c, first);
    if is_letter(c) {
        let i = letter_index(c);
        assert(((i + first) % 26 + second) % 26 == (i + first + second) % 26);
    }
}

/// A shift by a multiple of the alphabet's length changes nothing.
pub proof fn lemma_shifted_full_turn(c: char, turns: int)
    ensures
        shifted(c, 26 * turns) == c,
{
    if is_letter(c) {
        let i = letter_index(c);
        vstd::arithmetic::div_mod::lemma_mod_multiples_vanish(turns, i, 26);
    }
}

/// Moving a text on by `offset` and then by `26 - offset` gives the text
/// back.
pub proof fn lemma_shifted_text_back(text: Seq<char>, offset: int)
    ensures
        shifted_text(shifted_text(text, offset), 26 - offset) == text,
{
    let there = shifted_text(text, offset);
    let back = shifted_text(there, 26 - offset);
    assert forall|i: int| 0 <= i < text.len() implies back[i] == text[i] by {
        lemma_shifted_twice(text[i], offset, 26 - offset);
        lemma_shifted_full_turn(text[i], 1);
    }
    assert(back =~= text);
}

// Alphabetic characters.

/// Whether `c` has the Unicode property `Alphabetic`, as the standard
/// library answers it.
pub uninterp spec fn alphabetic(c: char) -> bool;

/// `char::is_alphabetic` looks the character up in the standard library's
/// Unicode tables. Nothing is claimed of the answer but that it depends on
/// the character alone.
pub assume_specification[ char::is_alphabetic ](c: char) -> (b: bool)
    ensures
        b == alphabetic(c),
;

/// A character together with the mark that says whether it is alphabetic.
pub open spec fn marked(c: char) -> (char, bool) {
    (c, alphabetic(c))
}

/// The characters of `text`, each with its mark.
pub open spec fn marked_text(text: Seq<char>) -> Seq<(char, bool)> {
    text.map_values(|c: char| marked(c))
}

/// The characters of `text`, each marked as alphabetic or not.
pub fn classify(text: &str) -> (symbols: Vec<(char, bool)>)
    ensures
        symbols@ == marked_text(text@),
{
    let plain = chars_of(text);
    let mut symbols: Vec<(char, bool)> = Vec::new();
    let mut i: usize = 0;
    while i < plain.len()
        invariant
            i <= plain.len(),
            plain@ == text@,
            symbols@ == marked_text(text@).take(i as int),
        decreases plain.len() - i,
    {
        let c = plain[i];
        symbols.push((c, c.is_alphabetic()));
        assert(symbols@ =~= marked_text(text@).take(i + 1));
        i += 1;
    }
    symbols
}

// Numbers in base two.

/// Whether `text` is written with the digits `0` and `1` alone.
pub open spec fn is_binary(text: Seq<char>) -> bool {
    forall|i: int| 0 <= i < text.len() ==> text[i] == '0' || text[i] == '1'
}

/// The number that `text` is in base two, its last digit counting one. A
/// character other than `1` counts as the digit zero.
pub open spec fn binary_value(text: Seq<char>) -> int
    decreases text.len(),
{
    if text.len() == 0 {
        0
    } else {
        2 * binary_value(text.drop_last()) + if text.last() == '1' {
            1int
        } else {
            0int
        }
    }
}

/// The character whose number is 65, the number of `A`, more than the
/// number that `bin` is in base two: `A` for zero, `B` for one, and so on.
/// A text with a character other than `0` and `1` is refused. The result
/// must fit in a byte, so the number is 190 at most.
pub fn binary_to_char(bin: &str) -> (r: Result<char, String>)
    requires
        is_binary(bin@) ==> binary_value(bin@) + 65 <= 255,
    ensures
        is_binary(bin@) ==> (r matches Ok(c) && c as int == binary_value(bin@) + 65),
        !is_binary(bin@) ==> (r matches Err(e) && e@ == "Must be a valid binary number"@),
{
    let digits = chars_of(bin);
    let mut i: usize = 0;
    while i < digits.len()
        invariant
            i <= digits.len(),
            digits@ == bin@,
            is_binary(bin@.take(i as int)),
        decreases digits.len() - i,
    {
        if digits[i] != '0' && digits[i] != '1' {
            return Err(String::from_str("Must be a valid binary number"));
        }
        i += 1;
    }
    assert(bin@.take(i as int) =~= bin@);
    let mut value: u8 = 0;
    let mut i: usize = 0;
    while i < digits.len()
        invariant
            i <= digits.len(),
            digits@ == bin@,
            is_binary(bin@),
            binary_value(bin@) + 65 <= 255,
            value == binary_value(bin@.take(i as int)),
        decreases digits.len() - i,
    {
        proof {
            lemma_binary_value_grows(bin@, i + 1);
            assert(bin@.take(i + 1).drop_last() =~= bin@.take(i as int));
        }
        let bit: u8 = if digits[i] == '1' {
            1
        } else {
            0
        };
        value = value * 2 + bit;
        i += 1;
    }
    assert(bin@.take(i as int) =~= bin@);
    Ok((value + 65) as char)
}

/// The first digits of a number in base two are a number that is not
/// larger.
pub proof fn lemma_binary_value_grows(text: Seq<char>, n: int)
    requires
        0 <= n <= text.len(),
    ensures
        0 <= binary_value(text.take(n)) <= binary_value(text),
    decreases text.len() - n,
{
    if n == text.len() {
        assert(text.take(n) =~= text);
        lemma_binary_value_is_natural(text);
    } else {
        lemma_binary_value_grows(text, n + 1);
        assert(text.take(n + 1).drop_last() =~= text.take(n));
        lemma_binary_value_is_natural(text.take(n));
    }
}

/// No text is a negative number in base two.
proof fn lemma_binary_value_is_natural(text: Seq<char>)
    ensures
        0 <= binary_value(text),
    decreases text.len(),
{
    if text.len() > 0 {
        lemma_binary_value_is_natural(text.drop_last());
    }
}

} // verus!
