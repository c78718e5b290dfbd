use sigaba::caesar::Caesar;
use sigaba::common::{Cipher, CipherError, ENGLISH};

#[test]
fn stasis() {
    let plaintext = "I CAME, I SAW, I CONQUERED.";
    let caesar = Caesar::new(&ENGLISH, 0).unwrap();
    assert_eq!(caesar.encrypt(plaintext), plaintext);
    assert_eq!(caesar.decrypt(plaintext), plaintext);
}

#[test]
fn shift2() {
    let plaintext = "THE die IS CAST.";
    let ciphertxt = "VJG die KU ECUV.";
    let caesar = Caesar::new(&ENGLISH, 2).unwrap();
    assert_eq!(caesar.encrypt(plaintext), ciphertxt);
    assert_eq!(caesar.decrypt(ciphertxt), plaintext);
}

#[test]
fn rot_13() {
    let plaintext = "THIS IS A SPOILER";
    let ciphertxt = "GUVF VF N FCBVYRE";
    let rot13 = Caesar::new_rot13().unwrap();
    assert_eq!(rot13.encrypt(plaintext), ciphertxt);
    assert_eq!(rot13.decrypt(ciphertxt), plaintext);
}

#[test]
fn wrap27() {
    let plaintext = "ET TU, brute?";
    let ciphertxt = "FU UV, brute?";
    let caesar = Caesar::new(&ENGLISH, 27).unwrap();
    assert_eq!(caesar.encrypt(plaintext), ciphertxt);
    assert_eq!(caesar.decrypt(ciphertxt), plaintext);
}

#[test]
fn caesar_round_trip_mixed_text() {
    let caesar = Caesar::new(&ENGLISH, 19).unwrap();
    let text = "Veni, Vidi, VICI -- 47 BC";
    assert_eq!(caesar.decrypt(&caesar.encrypt(text)), text);
}

#[test]
fn caesar_rot13_twice() {
    let rot13 = Caesar::new_rot13().unwrap();
    let text = "Hello, WORLD";
    assert_eq!(rot13.encrypt(&rot13.encrypt(text)), text);
}

#[test]
fn caesar_errors() {
    assert!(matches!(Caesar::new("ABB", 1), Err(CipherError::DuplicateAlphabetSymbol)));
    assert!(matches!(Caesar::new("", 1), Err(CipherError::EmptyAlphabet)));
}

#[test]
fn caesar_full_turn_is_identity() {
    let caesar = Caesar::new(&ENGLISH, 26).unwrap();
    assert_eq!(caesar.encrypt("ZEBRA, zebra"), "ZEBRA, zebra");
    assert_eq!(caesar.decrypt("ZEBRA, zebra"), "ZEBRA, zebra");
}
