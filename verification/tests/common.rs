use kryptos::common::{binary_to_char, classify, shift_letter, shift_text, ALPHABET};
use kryptos::text::{chars_of, string_of, trim_end_blanks};

#[test]
fn valid_binary() {
    assert!(binary_to_char("010").is_ok());
}

#[test]
fn invalid_binary() {
    assert!(binary_to_char("2010").is_err());
}

#[test]
fn number_to_char() {
    assert_eq!('C', binary_to_char("010").unwrap());
}

#[test]
fn binary_to_char_counts_from_a() {
    assert_eq!('A', binary_to_char("").unwrap());
    assert_eq!('A', binary_to_char("0").unwrap());
    assert_eq!('B', binary_to_char("1").unwrap());
    assert_eq!('Z', binary_to_char("11001").unwrap());
    assert_eq!('Z', binary_to_char("00000000011001").unwrap());
    assert_eq!('\u{ff}', binary_to_char("10111110").unwrap());
}

#[test]
fn binary_to_char_refuses_other_characters() {
    assert_eq!("Must be a valid binary number", binary_to_char("2010").unwrap_err());
    assert_eq!("Must be a valid binary number", binary_to_char("01 1").unwrap_err());
    assert_eq!("Must be a valid binary number", binary_to_char("-1").unwrap_err());
    assert_eq!("Must be a valid binary number", binary_to_char("1é").unwrap_err());
}

#[test]
fn alphabet_is_the_upper_case_letters() {
    assert_eq!(26, ALPHABET.chars().count());
    for (i, c) in ALPHABET.chars().enumerate() {
        assert_eq!((b'A' + i as u8) as char, c);
    }
}

#[test]
fn shift_letter_moves_within_the_case() {
    assert_eq!('b', shift_letter('a', 1));
    assert_eq!('B', shift_letter('A', 1));
    assert_eq!('a', shift_letter('z', 1));
    assert_eq!('A', shift_letter('Z', 1));
    assert_eq!('n', shift_letter('a', 13));
    assert_eq!('a', shift_letter('a', 0));
    assert_eq!('a', shift_letter('a', 26));
    assert_eq!('b', shift_letter('a', 27));
    // 255 = 9 * 26 + 21
    assert_eq!('v', shift_letter('a', 255));
    assert_eq!('U', shift_letter('Z', 255));
}

#[test]
fn shift_letter_leaves_what_is_no_letter() {
    for c in [' ', '0', '9', '@', '[', '`', '{', '\n', 'é', 'Ł', 'Ÿ', '京', '🖤'] {
        for offset in [0u8, 1, 13, 25, 26, 200] {
            assert_eq!(c, shift_letter(c, offset));
        }
    }
}

#[test]
fn shift_text_moves_each_letter() {
    assert_eq!("Ifmmp, Xpsme! 123", shift_text("Hello, World! 123", 1));
    assert_eq!("", shift_text("", 7));
}

#[test]
fn classify_marks_what_is_alphabetic() {
    assert_eq!(
        vec![('a', true), ('1', false), ('Z', true), (' ', false), ('京', true), ('💝', false)],
        classify("a1Z 京💝")
    );
    assert_eq!(Vec::<(char, bool)>::new(), classify(""));
}

#[test]
fn chars_and_strings_convert_both_ways() {
    assert_eq!(vec!['h', 'é', '京', '🖤'], chars_of("hé京🖤"));
    assert_eq!("hé京🖤", string_of(&vec!['h', 'é', '京', '🖤']));
    assert_eq!(Vec::<char>::new(), chars_of(""));
    assert_eq!("", string_of(&Vec::new()));
}

#[test]
fn trim_end_blanks_removes_blanks_at_the_end_only() {
    let mut text = chars_of("  a b  ");
    trim_end_blanks(&mut text);
    assert_eq!("  a b", string_of(&text));
    let mut text = chars_of("ab\t \n");
    trim_end_blanks(&mut text);
    assert_eq!("ab\t \n", string_of(&text));
    let mut text = chars_of("   ");
    trim_end_blanks(&mut text);
    assert_eq!("", string_of(&text));
    let mut text = chars_of("");
    trim_end_blanks(&mut text);
    assert_eq!("", string_of(&text));
}
