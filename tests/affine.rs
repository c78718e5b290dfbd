use sigaba::affine::Affine;
use sigaba::common::{Cipher, CipherError, ENGLISH};

#[test]
fn identity() {
    let plaintext = "DIFFERENT DAY, SAME OLD NONSENSE";
    let iden = Affine::new(&ENGLISH, 1, 0).unwrap();
    assert_eq!(iden.encrypt(&plaintext), plaintext);
    assert_eq!(iden.decrypt(&plaintext), plaintext);
}

#[test]
fn rotate13() {
    let plaintext = "THIS IS A SPOILER";
    let ciphertxt = "GUVF VF N FCBVYRE";
    let rot13 = Affine::new_rot13().unwrap();
    assert_eq!(rot13.encrypt(&plaintext), ciphertxt);
    assert_eq!(rot13.decrypt(&ciphertxt), plaintext);
}

#[test]
fn caesar12() {
    let plaintext = "THE die IS CAST.";
    let ciphertxt = "FTQ die UE OMEF.";
    let caesar = Affine::new_caesar(&ENGLISH, 12).unwrap();
    assert_eq!(caesar.encrypt(&plaintext), ciphertxt);
    assert_eq!(caesar.decrypt(&ciphertxt), plaintext);
}

#[test]
fn caesar27() {
    let plaintext = "ET TU, brute?";
    let ciphertxt = "FU UV, brute?";
    let caesar = Affine::new_caesar(&ENGLISH, 27).unwrap();
    assert_eq!(caesar.encrypt(&plaintext), ciphertxt);
    assert_eq!(caesar.decrypt(&ciphertxt), plaintext);
}

#[test]
fn atbash() {
    let plaintext = "PALINDROME";
    let ciphertxt = "KZORMWILNV";
    let atbash = Affine::new_atbash(&ENGLISH).unwrap();
    assert_eq!(atbash.encrypt(&plaintext), ciphertxt);
    assert_eq!(atbash.decrypt(&ciphertxt), plaintext);
}

#[test]
fn affine() {
    let plaintext = "MICHAEL";
    let ciphertxt = "PZBITJY";
    let affine = Affine::new(&ENGLISH, 17, 19).unwrap();
    assert_eq!(affine.encrypt(&plaintext), ciphertxt);
    assert_eq!(affine.decrypt(&ciphertxt), plaintext);
}

#[test]
fn affine_round_trip_mixed_text() {
    let plaintext = "Meet me at 10, by the OLD oak-tree!";
    let affine = Affine::new(&ENGLISH, 5, 8).unwrap();
    let ciphertxt = affine.encrypt(plaintext);
    assert_ne!(ciphertxt, plaintext);
    assert_eq!(affine.decrypt(&ciphertxt), plaintext);
}

#[test]
fn affine_formula_value() {
    // A (0) -> 5 * 0 + 8 = 8 (I); Z (25) -> 5 * 25 + 8 = 133 = 3 (mod 26) (D).
    let affine = Affine::new(&ENGLISH, 5, 8).unwrap();
    assert_eq!(affine.encrypt("AZ"), "ID");
    assert_eq!(affine.decrypt("ID"), "AZ");
}

#[test]
fn affine_negative_offset() {
    let caesar = Affine::new_caesar(&ENGLISH, -1).unwrap();
    assert_eq!(caesar.encrypt("ABC"), "ZAB");
    assert_eq!(caesar.decrypt("ZAB"), "ABC");
}

#[test]
fn affine_rot13_twice() {
    let rot13 = Affine::new_rot13().unwrap();
    let text = "Why did the chicken cross the road?";
    assert_eq!(rot13.encrypt(&rot13.encrypt(text)), text);
}

#[test]
fn affine_keeps_non_members() {
    let affine = Affine::new(&ENGLISH, 3, 1).unwrap();
    let text = "a B, c D!";
    let out = affine.encrypt(text);
    assert_eq!(out.chars().count(), text.chars().count());
    for (o, t) in out.chars().zip(text.chars()) {
        if !ENGLISH.contains(t) {
            assert_eq!(o, t);
        }
    }
}

#[test]
fn affine_no_inverse() {
    assert_eq!(Affine::new(&ENGLISH, 13, 0).unwrap_err(), CipherError::NoModularInverse);
    assert_eq!(Affine::new(&ENGLISH, 2, 5).unwrap_err(), CipherError::NoModularInverse);
    assert_eq!(Affine::new_caesar("A", 3).unwrap_err(), CipherError::NoModularInverse);
}

#[test]
fn affine_bad_alphabet() {
    assert_eq!(Affine::new("ABCA", 1, 0).unwrap_err(), CipherError::DuplicateAlphabetSymbol);
    assert_eq!(Affine::new("", 1, 0).unwrap_err(), CipherError::EmptyAlphabet);
    assert_eq!(Affine::new_atbash("AA").unwrap_err(), CipherError::DuplicateAlphabetSymbol);
}
