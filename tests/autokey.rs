use sigaba::autokey::AutoKey;
use sigaba::common::{Cipher, CipherError, ENGLISH};

const STRATEGY: &str = "ATTACK AT DAWN";

#[test]
fn txtautokey() {
    let ciphertxt = "QNXEPV YT WTWP";
    let autovig = AutoKey::new(&ENGLISH, "QUEENLY", false).unwrap();
    assert_eq!(autovig.encrypt(&STRATEGY), ciphertxt);
    assert_eq!(autovig.decrypt(&ciphertxt), STRATEGY);
}

#[test]
fn keyautokey() {
    let ciphertxt = "QNXEPV YJ QXAC";
    let autovig = AutoKey::new(&ENGLISH, "QUEENLY", true).unwrap();
    assert_eq!(autovig.encrypt(&STRATEGY), ciphertxt);
    assert_eq!(autovig.decrypt(&ciphertxt), STRATEGY);
}

#[test]
fn autokey_round_trip_both_modes() {
    let text = "Defend the east wall of the castle, now!";
    for autoregressive in [false, true] {
        let cipher = AutoKey::new(&ENGLISH, "FORTIFY", autoregressive).unwrap();
        let ciphertxt = cipher.encrypt(text);
        assert_eq!(cipher.decrypt(&ciphertxt), text);
    }
}

#[test]
fn autokey_short_primer() {
    // Primer of one symbol: every chunk has one symbol.
    let cipher = AutoKey::new(&ENGLISH, "B", true).unwrap();
    // A+B = B, B+B = C, C+C = E.
    assert_eq!(cipher.encrypt("ABC"), "BCE");
    assert_eq!(cipher.decrypt("BCE"), "ABC");
    let cipher = AutoKey::new(&ENGLISH, "B", false).unwrap();
    // A+B = B, B+A = B, C+B = D.
    assert_eq!(cipher.encrypt("ABC"), "BBD");
    assert_eq!(cipher.decrypt("BBD"), "ABC");
}

#[test]
fn autokey_errors() {
    assert!(matches!(AutoKey::new(&ENGLISH, "QU33N", false), Err(CipherError::InvalidKeywordCharacter)));
    assert!(matches!(AutoKey::new(&ENGLISH, "", true), Err(CipherError::EmptyKeyword)));
    assert!(matches!(AutoKey::new("ABA", "A", true), Err(CipherError::DuplicateAlphabetSymbol)));
}
