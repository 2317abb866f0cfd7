use kryptos::ciphers::caesar::Caesar;

#[test]
fn caesar_encipher() {
    let c = Caesar::new(13).unwrap();
    assert_eq!("guvf vf n frperg", c.encipher("this is a secret"));
}

#[test]
fn caesar_decipher() {
    let c = Caesar::new(10).unwrap();
    assert_eq!("this is a secret", c.decipher("drsc sc k combod"));
}

#[test]
fn all_rotations() {
    let alpha = "ABCDEFGHIJKLMNOPQRSTUVWXYZabcdefghijklmnopqrstuvwxyz";
    for n in 1..27 {
        let c = Caesar::new(n).unwrap();
        assert_eq!(alpha, c.decipher(&c.encipher(alpha)));
    }
}

#[test]
fn caesar_with_punctuation() {
    let c = Caesar::new(7).unwrap();
    assert_eq!(
        "Olssv, P ohcl h zljyla",
        c.encipher("Hello, I have a secret")
    );
}

#[test]
fn caesar_with_unicode() {
    let c = Caesar::new(9).unwrap();
    assert_eq!("R ðŸ–¤ lahycxpajyqh", c.encipher("I ðŸ–¤ cryptography"));
}

#[test]
fn too_low_rotation() {
    assert!(Caesar::new(0).is_err());
}

#[test]
fn too_high_rotation() {
    assert!(Caesar::new(27).is_err());
}

#[test]
fn caesar_refusal_names_the_range() {
    assert_eq!(
        "Rotation must be between 1 through 26",
        Caesar::new(0).unwrap_err()
    );
    assert_eq!(
        "Rotation must be between 1 through 26",
        Caesar::new(255).unwrap_err()
    );
}

#[test]
fn caesar_accepts_both_ends_of_the_range() {
    assert!(Caesar::new(1).is_ok());
    assert!(Caesar::new(26).is_ok());
}

#[test]
fn caesar_full_turn_changes_nothing() {
    let c = Caesar::new(26).unwrap();
    assert_eq!("Hello, World!", c.encipher("Hello, World!"));
    assert_eq!("Hello, World!", c.decipher("Hello, World!"));
}

#[test]
fn caesar_wraps_within_each_case() {
    let c = Caesar::new(3).unwrap();
    assert_eq!("abc ABC", c.encipher("xyz XYZ"));
    assert_eq!("xyz XYZ", c.decipher("abc ABC"));
}

#[test]
fn caesar_leaves_letters_of_other_alphabets() {
    let c = Caesar::new(5).unwrap();
    assert_eq!("\u{141}\u{e9}\u{3b1} f", c.encipher("\u{141}\u{e9}\u{3b1} a"));
}

#[test]
fn caesar_empty_text() {
    let c = Caesar::new(5).unwrap();
    assert_eq!("", c.encipher(""));
    assert_eq!("", c.decipher(""));
}
