use kryptos::ciphers::substitution::Substitution;

#[test]
fn unique_alphabet() {
    assert!(Substitution::new("RBQIZDJCFMELOPAVNHYGWKTUXS").is_ok());
}

#[test]
fn non_unique_alphabet() {
    assert!(Substitution::new("ABCDEFGHIJKLMNOPQRSTUVWXAZ").is_err());
}

#[test]
fn non_alphabetic() {
    assert!(Substitution::new("RBQI1DJCFMELOPAVNHYGWKTUXS").is_err());
}

#[test]
fn too_small_alphabet() {
    assert!(Substitution::new("ABC").is_err());
}

#[test]
fn too_large_alphabet() {
    assert!(Substitution::new("ABCDEFGHIJKLMNOPQRSTUVWXYZA").is_err());
}

#[test]
fn substitution_encipher() {
    let s = Substitution::new("NAKYQRTXBZPFIVEJSDCHGOUMWL").unwrap();
    assert_eq!(
        "Ye weg fbpq cqkdqh iqccntqc",
        s.encipher("Do you like secret messages").unwrap()
    );
}

#[test]
fn substitution_with_punctuation() {
    let s = Substitution::new("NAKYQRTXBZPFIVEJSDCHGOUMWL").unwrap();
    assert_eq!(
        "Ye weg fbpq cqkdqh iqccntqc?",
        s.encipher("Do you like secret messages?").unwrap()
    );
}

#[test]
fn substitution_with_unicode() {
    let s = Substitution::new("NAKYQRTXBZPFIVEJSDCHGOUMWL").unwrap();
    assert_eq!(
        "Ye weg fbpq cqkdqh 🖤 iqccntqc",
        s.encipher("Do you like secret 🖤 messages").unwrap()
    );
}

#[test]
fn substitution_decipher() {
    let s = Substitution::new("NAKYQRTXBZPFIVEJSDCHGOUMWL").unwrap();
    assert_eq!(
        "Do you like secret messages",
        s.decipher("Ye weg fbpq cqkdqh iqccntqc").unwrap()
    );
}

#[test]
fn substitution_refusals_say_why() {
    assert_eq!(
        "Key is not the correct length",
        Substitution::new("ABC").unwrap_err()
    );
    assert_eq!(
        "Key is not the correct length",
        Substitution::new("ABCDEFGHIJKLMNOPQRSTUVWXYZA").unwrap_err()
    );
    assert_eq!("Key is not the correct length", Substitution::new("").unwrap_err());
    assert_eq!(
        "Key must be alphabetic",
        Substitution::new("RBQI1DJCFMELOPAVNHYGWKTUXS").unwrap_err()
    );
    assert_eq!(
        "Key alphabet must be unique",
        Substitution::new("ABCDEFGHIJKLMNOPQRSTUVWXAZ").unwrap_err()
    );
}

#[test]
fn substitution_length_is_checked_first() {
    // Too short, and neither alphabetic nor without repeats.
    assert_eq!("Key is not the correct length", Substitution::new("11").unwrap_err());
}

#[test]
fn substitution_first_offence_decides() {
    // The repeat at place 1 comes before the digit at place 25.
    assert_eq!(
        "Key alphabet must be unique",
        Substitution::new("AACDEFGHIJKLMNOPQRSTUVWXY1").unwrap_err()
    );
    // The digit at place 1 comes before the repeat at place 25.
    assert_eq!(
        "Key must be alphabetic",
        Substitution::new("A1CDEFGHIJKLMNOPQRSTUVWXYA").unwrap_err()
    );
    // A digit that repeats an earlier digit is never reached; the first
    // digit is refused as not alphabetic.
    assert_eq!(
        "Key must be alphabetic",
        Substitution::new("A1CDEFGHIJKLMNOPQRSTUVWXY1").unwrap_err()
    );
}

#[test]
fn substitution_key_tells_the_cases_apart() {
    // `a` and `A` are two characters.
    assert!(Substitution::new("aAbBcCdDeEfFgGhHiIjJkKlLmM").is_ok());
}

#[test]
fn substitution_key_length_counts_characters() {
    // 26 characters, more bytes.
    assert!(Substitution::new("ÀBCDEFGHIJKLMNOPQRSTUVWXYZ").is_ok());
}

#[test]
fn substitution_check_key_goes_by_the_marks() {
    let letters: Vec<(char, bool)> = ('A'..='Z').map(|c| (c, true)).collect();
    assert!(Substitution::check_key(&letters).is_ok());

    let mut unmarked = letters.clone();
    unmarked[7].1 = false;
    assert_eq!(
        "Key must be alphabetic",
        Substitution::check_key(&unmarked).unwrap_err()
    );

    let mut repeated = letters.clone();
    repeated[25].0 = 'C';
    assert_eq!(
        "Key alphabet must be unique",
        Substitution::check_key(&repeated).unwrap_err()
    );

    let mut both = letters.clone();
    both[25] = ('C', false);
    assert_eq!("Key must be alphabetic", Substitution::check_key(&both).unwrap_err());

    // The marks decide, not the characters: 26 circled numbers, all marked.
    let circled: Vec<(char, bool)> = (0..26u32)
        .map(|i| (char::from_u32(0x2460 + i).unwrap(), true))
        .collect();
    assert!(Substitution::check_key(&circled).is_ok());

    assert_eq!(
        "Key is not the correct length",
        Substitution::check_key(&letters[..25].to_vec()).unwrap_err()
    );
}

#[test]
fn substitution_round_trip() {
    let s = Substitution::new("QWERTYUIOPASDFGHJKLZXCVBNM").unwrap();
    let text = "The quick brown fox jumps over the lazy dog, 13 times — Ÿes!";
    let there = s.encipher(text).unwrap();
    assert_eq!(
        "Zit jxoea wkgvf ygb pxdhl gctk zit sqmn rgu, 13 zodtl — Ÿtl!",
        there
    );
    assert_eq!(text, s.decipher(&there).unwrap());
}

#[test]
fn substitution_identity_alphabet() {
    let s = Substitution::new("ABCDEFGHIJKLMNOPQRSTUVWXYZ").unwrap();
    assert_eq!("Hello, World", s.encipher("Hello, World").unwrap());
    assert_eq!("Hello, World", s.decipher("Hello, World").unwrap());
}

#[test]
fn substitution_lowers_by_the_low_byte() {
    // With a key in lower case an upper-case letter becomes the key's
    // character, and a lower-case letter that character's byte moved on by
    // the distance from `A` to `a`: 98 - 65 + 97 = 130 for `b`.
    let s = Substitution::new("abcdefghijklmnopqrstuvwxyz").unwrap();
    assert_eq!("a\u{82}", s.encipher("Ab").unwrap());
}

#[test]
fn substitution_leaves_what_is_no_letter() {
    let s = Substitution::new("NAKYQRTXBZPFIVEJSDCHGOUMWL").unwrap();
    assert_eq!("12 + 30 = 42 Łé京", s.encipher("12 + 30 = 42 Łé京").unwrap());
    assert_eq!("12 + 30 = 42 Łé京", s.decipher("12 + 30 = 42 Łé京").unwrap());
    assert_eq!("", s.encipher("").unwrap());
    assert_eq!("", s.decipher("").unwrap());
}
