use sigaba::common::{Cipher, CipherError, ENGLISH};
use sigaba::transpose::{rotate_vec, transpose_vec, Columnar, Transpose};

const PLAINTEXT: &str = "WE ARE DISCOVERED FLEE AT ONCE";

#[test]
fn scytale_symm() {
    let plaintext = PLAINTEXT.replace("AT ONCE", "QUICKLY");
    let ciphertxt = "WO EEV QAEURRIEEC DDKI FLSLYCE";

    let pad_rows = Transpose::as_flip(&ENGLISH, 3, false).unwrap();
    assert_eq!(pad_rows.encrypt(&plaintext), ciphertxt);
    assert_eq!(pad_rows.decrypt(ciphertxt), plaintext);

    let pad_cols = Transpose::as_flip(&ENGLISH, 3, true).unwrap();
    assert_eq!(pad_cols.encrypt(&plaintext), ciphertxt);
    assert_eq!(pad_cols.decrypt(ciphertxt), plaintext);
}

#[test]
fn scytale_asym() {
    let ciphertxt = "WO EEV AAETRROEEN DDCI FE SLCE";
    let pad_rows = Transpose::as_flip(&ENGLISH, 3, false).unwrap();
    assert_eq!(pad_rows.encrypt(PLAINTEXT), ciphertxt);
    assert_eq!(pad_rows.decrypt(&ciphertxt), PLAINTEXT);

    let ciphertxt = "WO EEV EAEARRTEEO DDNI FC SLEC";
    let pad_cols = Transpose::as_flip(&ENGLISH, 3, true).unwrap();
    assert_eq!(pad_cols.encrypt(PLAINTEXT), ciphertxt);
    assert_eq!(pad_cols.decrypt(&ciphertxt), PLAINTEXT);
}

#[test]
fn columnar() {
    let ciphertxt = "EV LN* ACDT*ESEA* ROFO *D EEC*WIREE";
    let pad_rows = Columnar::new(&ENGLISH, "ZEBRAS").unwrap();
    let encrypted = pad_rows.encrypt(PLAINTEXT);
    let cleaned: String = ciphertxt
        .chars()
        .zip(encrypted.chars())
        .filter_map(|(c0, c1)| if c0 == '*' { None } else { Some(c1) })
        .collect();
    assert_eq!(cleaned, ciphertxt.replace("*", ""));
    assert_eq!(pad_rows.decrypt(&encrypted)[..PLAINTEXT.len()], *PLAINTEXT);
}

#[test]
fn rotate() {
    let right = Transpose::as_right(&ENGLISH, 2, false).unwrap();
    assert_eq!(right.encrypt("ABCDEF"), "DAEBFC");
    assert_eq!(right.decrypt("DAEBFC"), "ABCDEF");
    let left = Transpose::as_left(&ENGLISH, 2, false).unwrap();
    assert_eq!(left.encrypt("ABCDEF"), "CFBEAD");
    assert_eq!(left.decrypt("CFBEAD"), "ABCDEF");
    for pad_cols in [false, true] {
        for cipher in [
            Transpose::as_right(&ENGLISH, 4, pad_cols).unwrap(),
            Transpose::as_left(&ENGLISH, 4, pad_cols).unwrap(),
        ] {
            let encrypted = cipher.encrypt(PLAINTEXT);
            assert_ne!(encrypted, PLAINTEXT);
            assert_eq!(cipher.decrypt(&encrypted), PLAINTEXT);
        }
    }
}

#[test]
fn transpose_vec_values() {
    assert_eq!(transpose_vec(vec![0, 1, 2, 3, 4, 5], (2, 3)), vec![0, 3, 1, 4, 2, 5]);
    assert_eq!(transpose_vec(vec![], (3, 0)), Vec::<usize>::new());
}

#[test]
fn rotate_vec_values() {
    assert_eq!(rotate_vec(vec![0, 1, 2, 3, 4, 5], (2, 3), false), vec![3, 0, 4, 1, 5, 2]);
    assert_eq!(rotate_vec(vec![0, 1, 2, 3, 4, 5], (2, 3), true), vec![2, 5, 1, 4, 0, 3]);
}

#[test]
fn transpose_padding_paths_differ() {
    // 25 letters in 3 rows: two pads, placed differently by the two policies.
    let pad_rows = Transpose::as_flip(&ENGLISH, 3, false).unwrap();
    let pad_cols = Transpose::as_flip(&ENGLISH, 3, true).unwrap();
    let a = pad_rows.encrypt(PLAINTEXT);
    let b = pad_cols.encrypt(PLAINTEXT);
    assert_ne!(a, b);
    assert_eq!(pad_rows.decrypt(&a), PLAINTEXT);
    assert_eq!(pad_cols.decrypt(&b), PLAINTEXT);
}

#[test]
fn transpose_edge_cases() {
    let one_row = Transpose::as_flip(&ENGLISH, 1, false).unwrap();
    assert_eq!(one_row.encrypt("HELLO, you"), "HELLO, you");
    let many_rows = Transpose::as_flip(&ENGLISH, 10, true).unwrap();
    assert_eq!(many_rows.encrypt("ABC"), "ABC");
    assert_eq!(many_rows.encrypt("... !"), "... !");
    assert!(matches!(Transpose::as_flip(&ENGLISH, 0, false), Err(CipherError::ZeroRows)));
    assert!(matches!(Transpose::as_left("ABA", 2, false), Err(CipherError::DuplicateAlphabetSymbol)));
}

#[test]
fn columnar_with_chosen_pad() {
    let cipher = Columnar::new(&ENGLISH, "ZEBRAS").unwrap();
    let encrypted = cipher.encrypt_with_pad(PLAINTEXT, &vec![0, 1, 2, 3, 4]).unwrap();
    assert_eq!(encrypted, "EV LND ACDTBESEAA ROFO CD EECEWIREE");
    assert_eq!(cipher.decrypt(&encrypted), format!("{}ABCDE", PLAINTEXT));
}

#[test]
fn columnar_rejects_bad_pad() {
    let cipher = Columnar::new(&ENGLISH, "ZEBRAS").unwrap();
    assert_eq!(cipher.encrypt_with_pad(PLAINTEXT, &vec![0, 1, 2, 3]), None);
    assert_eq!(cipher.encrypt_with_pad(PLAINTEXT, &vec![0, 1, 2, 3, 26]), None);
}

#[test]
fn columnar_repeated_keyword_letters() {
    // Equal letters are read left to right.
    let cipher = Columnar::new("ABCD", "AA").unwrap();
    assert_eq!(cipher.encrypt_with_pad("ABCD", &vec![]).unwrap(), "ACBD");
    assert_eq!(cipher.decrypt("ACBD"), "ABCD");
}

#[test]
fn columnar_round_trip_up_to_pad() {
    let cipher = Columnar::new(&ENGLISH, "KEY").unwrap();
    // 15 members in 3 columns: no padding.
    let text = "ABCDE fghij, KLMNO FGHIJ!";
    let encrypted = cipher.encrypt(text);
    assert_eq!(cipher.decrypt(&encrypted), text);
    // 13 members in 3 columns: two symbols of padding follow the text.
    let text = "Seven: SEVENLETTERS?";
    let decrypted = cipher.decrypt(&cipher.encrypt(text));
    assert!(decrypted.starts_with(text));
    assert_eq!(decrypted.chars().count(), text.chars().count() + 2);
}

#[test]
fn columnar_errors() {
    assert!(matches!(Columnar::new(&ENGLISH, "zebra"), Err(CipherError::InvalidKeywordCharacter)));
    assert!(matches!(Columnar::new(&ENGLISH, ""), Err(CipherError::EmptyKeyword)));
}

#[test]
fn transpose_huge_row_count_returns_text() {
    for pad_cols in [false, true] {
        let cipher = Transpose::as_flip(&ENGLISH, usize::MAX, pad_cols).unwrap();
        assert_eq!(cipher.encrypt(""), "");
        assert_eq!(cipher.encrypt("123 !"), "123 !");
        assert_eq!(cipher.decrypt("ABC, d"), "ABC, d");
    }
}

#[test]
fn columnar_repeated_letters_round_trip() {
    let cipher = Columnar::new(&ENGLISH, "ABA").unwrap();
    // Ten letters in three columns: two symbols of padding.
    let encrypted = cipher.encrypt_with_pad("HELLO WORLD", &vec![25, 24]).unwrap();
    assert_eq!(cipher.decrypt(&encrypted), "HELLO WORLDZY");
}

#[test]
fn rail_fence_exists() {
    let _fence = sigaba::transpose::RailFence {};
}
