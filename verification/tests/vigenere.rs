use kryptos::ciphers::vigenere::Vigenere;

#[test]
fn valid_key() {
    assert!(Vigenere::new("secret").is_ok());
}

#[test]
fn invalid_key() {
    assert!(Vigenere::new("s3cr3t").is_err());
}

#[test]
fn key_conversion() {
    let v = vec![3, 8, 5, 5, 8, 4];
    let x = Vigenere::new("diffie").unwrap();
    assert_eq!(v, x.convert_key().unwrap());
}

#[test]
fn invalid_key_conversion() {
    assert!(Vigenere::convert_key(&Vigenere { key: "dif.fie" }).is_err());
}

#[test]
fn vigenere_encipher() {
    let v = Vigenere::new("blaise").unwrap();
    assert_eq!(
        "tsh ggy ilvm qsv hhqktfc",
        v.encipher("shh you have you whisper").unwrap()
    );
}

#[test]
fn vigenere_with_punctuation() {
    let v = Vigenere::new("blaise").unwrap();
    assert_eq!(
        "tsh! ggy ilvm qsv hhqktfc",
        v.encipher("shh! you have you whisper").unwrap()
    );
}

#[test]
fn vigenere_with_unicode() {
    let v = Vigenere::new("babbage").unwrap();
    assert_eq!(
        "Eo zpu 🖤 yidrfu mkwtahfs?",
        v.encipher("Do you 🖤 secret messages?").unwrap()
    );
}

#[test]
fn vigenere_decipher() {
    let v = Vigenere::new("blaise").unwrap();
    assert_eq!(
        "whispering can still be heard by others",
        v.decipher("xsiahistno ueo dtqdp cp hmsve my wllfcs")
            .unwrap()
    );
}

#[test]
fn vigenere_refusals_say_why() {
    assert_eq!("Key must be alphabetic", Vigenere::new("s3cr3t").unwrap_err());
    assert_eq!("Key must be alphabetic", Vigenere::new("two words").unwrap_err());
    assert_eq!(
        "Invalid character in key",
        Vigenere { key: "dif.fie" }.convert_key().unwrap_err()
    );
}

#[test]
fn vigenere_check_key_goes_by_the_marks() {
    assert!(Vigenere::check_key(&vec![('a', true), ('b', true)]).is_ok());
    assert!(Vigenere::check_key(&vec![]).is_ok());
    // The marks decide, not the characters.
    assert!(Vigenere::check_key(&vec![('1', true)]).is_ok());
    assert_eq!(
        "Key must be alphabetic",
        Vigenere::check_key(&vec![('a', true), ('b', false)]).unwrap_err()
    );
}

#[test]
fn vigenere_key_is_alphabetic_beyond_the_letters_a_to_z() {
    // Alphabetic, so the key is accepted; no letter of the alphabet, so it
    // has no offsets.
    let v = Vigenere::new("clé").unwrap();
    assert_eq!("Invalid character in key", v.convert_key().unwrap_err());
}

#[test]
fn vigenere_key_conversion_ignores_case() {
    let x = Vigenere::new("AbZz").unwrap();
    assert_eq!(vec![0, 1, 25, 25], x.convert_key().unwrap());
}

#[test]
fn vigenere_round_trip() {
    let v = Vigenere::new("Lemon").unwrap();
    let text = "Attack at dawn! 07:00, Ÿes — really.";
    let there = v.encipher(text).unwrap();
    assert_eq!("Lxfopv ef rnhr! 07:00, Ÿqg — epexzl.", there);
    assert_eq!(text, v.decipher(&there).unwrap());
}

#[test]
fn vigenere_key_of_a_changes_nothing() {
    let v = Vigenere::new("a").unwrap();
    assert_eq!("Hello, World", v.encipher("Hello, World").unwrap());
    assert_eq!("Hello, World", v.decipher("Hello, World").unwrap());
}

#[test]
fn vigenere_empty_key_on_text_without_letters() {
    let v = Vigenere::new("").unwrap();
    assert_eq!("12 + 30 = 42", v.encipher("12 + 30 = 42").unwrap());
    assert_eq!("", v.decipher("").unwrap());
}

#[test]
fn vigenere_transpose_takes_any_offsets() {
    assert_eq!("bdf", Vigenere::transpose(&[1, 2, 3], "abc").unwrap());
    assert_eq!("b-d", Vigenere::transpose(&[1, 2, 3], "a-b").unwrap());
    // 27 is one full turn and one more; 255 = 9 * 26 + 21.
    assert_eq!("bv", Vigenere::transpose(&[27, 255], "aa").unwrap());
    assert_eq!("bcb", Vigenere::transpose(&[1, 2], "aaa").unwrap());
}
