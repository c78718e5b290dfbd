use sigaba::common::{
    alphabetize, char_index, check_unique, filter, mult_inv, refill, CipherError, ENGLISH,
};

#[test]
fn filter_keeps_members_in_order() {
    assert_eq!(filter("Hello, World!", ENGLISH), "HW");
    assert_eq!(filter("", ENGLISH), "");
}

#[test]
fn refill_cases() {
    assert_eq!(refill("XY", "a-b", "ab"), "X-Y");
    assert_eq!(refill("XYZ", "a-b", "ab"), "X-YZ");
    assert_eq!(refill("X", "a-b", "ab"), "X-");
    assert_eq!(refill("", "", "ab"), "");
}

#[test]
fn check_unique_cases() {
    assert_eq!(check_unique(ENGLISH), Ok(()));
    assert_eq!(check_unique("ABCB"), Err(CipherError::DuplicateAlphabetSymbol));
}

#[test]
fn mult_inv_cases() {
    assert_eq!(mult_inv(17, 26), Ok(23));
    assert_eq!(mult_inv(-1, 26), Ok(25));
    assert_eq!(mult_inv(-3, 26), Ok(17));
    assert_eq!(mult_inv(2, 26), Err(CipherError::NoModularInverse));
    assert_eq!(mult_inv(1, 1), Err(CipherError::NoModularInverse));
    assert_eq!(mult_inv(5, 0), Err(CipherError::NoModularInverse));
}

#[test]
fn char_index_and_alphabetize() {
    assert_eq!(char_index("HELLO world", ENGLISH), vec![7, 4, 11, 11, 14]);
    assert_eq!(alphabetize(vec![7, 4, 11, 11, 14, 26], ENGLISH), "HELLO");
}
