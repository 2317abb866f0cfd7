use kryptos::ciphers::scytale::Scytale;
use kryptos::error::Error;

#[test]
fn scytale_valid_height() {
    assert!(Scytale::new(4).is_ok());
}

#[test]
fn scytale_invalid_height() {
    assert!(Scytale::new(0).is_err());
}

#[test]
fn height_greater_than_text() {
    let s = Scytale::new(10).unwrap();
    assert!(s.encipher("abc").is_err());
}

#[test]
fn scytale_encipher() {
    let s = Scytale::new(6).unwrap();
    assert_eq!("I r aeh tas ve ec ", s.encipher("I have a secret").unwrap());
}

#[test]
fn scytale_decipher() {
    let s = Scytale::new(6).unwrap();
    assert_eq!("I have a secret", s.decipher("I r aeh tas ve ec ").unwrap());
}

#[test]
fn scytale_zero_height_is_an_invalid_key() {
    assert!(matches!(Scytale::new(0), Err(Error::InvalidKey)));
}

#[test]
fn scytale_height_not_below_length_is_too_large() {
    let s = Scytale::new(10).unwrap();
    assert!(matches!(s.encipher("abc"), Err(Error::KeyTooLarge)));
    assert!(matches!(s.decipher("abc"), Err(Error::KeyTooLarge)));
    assert!(matches!(s.transpose("abc", false), Err(Error::KeyTooLarge)));
    assert!(matches!(s.transpose("abc", true), Err(Error::KeyTooLarge)));
}

#[test]
fn scytale_height_equal_to_length_is_too_large() {
    let s = Scytale::new(3).unwrap();
    assert!(matches!(s.encipher("abc"), Err(Error::KeyTooLarge)));
    assert!(matches!(s.decipher("abc"), Err(Error::KeyTooLarge)));
    assert!(matches!(s.encipher(""), Err(Error::KeyTooLarge)));
    assert!(s.encipher("abcd").is_ok());
}

#[test]
fn scytale_length_counts_characters_not_bytes() {
    // Three characters, nine bytes.
    let s = Scytale::new(3).unwrap();
    assert!(matches!(s.encipher("京都市"), Err(Error::KeyTooLarge)));
    let s = Scytale::new(2).unwrap();
    assert_eq!("京市都 ", s.encipher("京都市").unwrap());
    assert_eq!("京都市", s.decipher("京市都 ").unwrap());
}

#[test]
fn scytale_full_grid_has_no_padding() {
    let s = Scytale::new(2).unwrap();
    assert_eq!("acebdf", s.encipher("abcdef").unwrap());
    assert_eq!("abcdef", s.decipher("acebdf").unwrap());
}

#[test]
fn scytale_single_row_keeps_the_order() {
    let s = Scytale::new(1).unwrap();
    assert_eq!("hello", s.encipher("hello").unwrap());
    assert_eq!("hello", s.decipher("hello").unwrap());
}

#[test]
fn scytale_enciphered_length_fills_the_grid() {
    for height in 1..8usize {
        let s = Scytale::new(height).unwrap();
        for len in (height + 1)..30usize {
            let text: String = (0..len).map(|i| (b'a' + (i % 26) as u8) as char).collect();
            let width = (len + height - 1) / height;
            let wound = s.encipher(&text).unwrap();
            assert_eq!(height * width, wound.chars().count());
            assert!(wound.chars().count() >= len);
            assert_eq!(len, s.decipher(&wound).unwrap().chars().count());
        }
    }
}

#[test]
fn scytale_round_trip() {
    for height in 1..8usize {
        let s = Scytale::new(height).unwrap();
        for len in (height + 1)..30usize {
            let text: String = (0..len).map(|i| (b'a' + (i % 26) as u8) as char).collect();
            assert_eq!(text, s.decipher(&s.encipher(&text).unwrap()).unwrap());
        }
    }
}

#[test]
fn scytale_round_trip_keeps_blanks_inside_and_in_front() {
    let s = Scytale::new(3).unwrap();
    let text = "  two  words, spaced\tout";
    assert_eq!(text, s.decipher(&s.encipher(text).unwrap()).unwrap());
}

#[test]
fn scytale_round_trip_loses_blanks_at_the_end() {
    // The blanks that fill the grid cannot be told from blanks that end
    // the text: both are trimmed.
    let s = Scytale::new(2).unwrap();
    let wound = s.encipher("abc  ").unwrap();
    assert_eq!("ac b  ", wound);
    assert_eq!("abc", s.decipher(&wound).unwrap());
}

#[test]
fn scytale_decipher_trims_blanks_only() {
    let s = Scytale::new(2).unwrap();
    // A tab at the end is no padding and stays.
    assert_eq!("abc\t", s.decipher(&s.encipher("abc\t").unwrap()).unwrap());
    // A text of blanks alone comes back empty.
    assert_eq!("", s.decipher("    ").unwrap());
}

#[test]
fn scytale_decipher_of_a_ragged_text() {
    // Five characters on two rows of three: the last cell is blank.
    let s = Scytale::new(2).unwrap();
    assert_eq!("adbec", s.decipher("abcde").unwrap());
}

#[test]
fn scytale_transpose_lays_out_the_grid() {
    let s = Scytale::new(3).unwrap();
    let down: String = s.transpose("abcdefgh", false).unwrap().into_iter().collect();
    assert_eq!("adgbehcf ", down);
    let along: String = s.transpose("abcdefgh", true).unwrap().into_iter().collect();
    assert_eq!("abcdefgh ", along);
}
