use sigaba::common::{filter, Cipher, CipherError, ENGLISH, KRYPTOS};
use sigaba::vigenere::Vigenere;

const K1_PLAIN: &str = "BETWEEN SUBTLE SHADING AND THE ABSENCE OF LIGHT LIES THE NUANCE OF IQLUSION";
const K1_CIPHER: &str = "EMUFPHZLRFAXYUSDJKZLDKRNSHGNFIVJYQTQUXQBQVYUVLLTREVJYQTMKYRDMFD";
const K2_PLAIN: &str = "IT WAS TOTALLY INVISIBLE HOWS THAT POSSIBLE ? THEY USED THE EARTHS MAGNETIC FIELD X THE INFORMATION WAS GATHERED AND TRANSMITTED UNDERGRUUND TO AN UNKNOWN LOCATION X DOES LANGLEY KNOW ABOUT THIS ? THEY SHOULD ITS BURIED OUT THERE SOMEWHERE X WHO KNOWS THE EXACT LOCATION ? ONLY WW THIS WAS HIS LAST MESSAGE X THIRTY EIGHT DEGREES FIFTY SEVEN MINUTES SIX POINT FIVE SECONDS NORTH SEVENTY SEVEN DEGREES EIGHT MINUTES FORTY FOUR SECONDS WEST ID BY ROWS";
const K2_CIPHER: &str = "VFPJUDEEHZWETZYVGWHKKQETGFQJNCEGGWHKK?DQMCPFQZDQMMIAGPFXHQRLGTIMVMZJANQLVKQEDAGDVFRPJUNGEUNAQZGZLECGYUXUEENJTBJLBQCRTBJDFHRRYIZETKZEMVDUFKSJHKFWHKUWQLSZFTIHHDDDUVH?DWKBFUFPWNTDFIYCUQZEREEVLDKFEZMOQQJLTTUGSYQPFEUNLAVIDXFLGGTEZ?FKZBSFDQVGOGIPUFXHHDRKFFHQNTGPUAECNUVPDJMQCLQUMUNEDFQELZZVRRGKFFVOEEXBDMVPNFQXEZLGREDNQFMPNZGLFLPMRJQYALMGNUVPDXVKPDQUMEBEDMHDAFMJGZNUPLGEWJLLAETG";

#[test]
fn kryptos_k1() {
    let plaintext = K1_PLAIN.replace("\n", "").replace(" ", "");
    let ciphertxt = K1_CIPHER.replace("\n", "");
    let vigenere = Vigenere::new(&KRYPTOS, "PALIMPSEST").unwrap();
    assert_eq!(vigenere.encrypt(&plaintext), ciphertxt);
    assert_eq!(vigenere.decrypt(&ciphertxt), plaintext);
}

#[test]
fn kryptos_k2() {
    let plaintext = K2_PLAIN.replace("\n", "").replace(" ", "");
    let ciphertxt = K2_CIPHER.replace("\n", "");
    let vigenere = Vigenere::new(&KRYPTOS, "ABSCISSA").unwrap();
    assert_eq!(vigenere.encrypt(&plaintext), ciphertxt);
    assert_eq!(vigenere.decrypt(&ciphertxt), plaintext);
}

#[test]
fn variant() {
    let ciphertxt = "BV LXL XZWKCEN KGJBZAYBV BZJZ VBXI WZZZAYBV ?";
    let vigenere = Vigenere::new(&KRYPTOS, "ABSCISSA").unwrap();
    assert_eq!(vigenere.decrypt(K2_PLAIN)[..ciphertxt.len()], *ciphertxt);
    assert_eq!(vigenere.encrypt(ciphertxt), K2_PLAIN[..ciphertxt.len()]);
}

#[test]
fn beaufort() {
    let plaintext = "IT WAS GIOVANNI VESTRI";
    let ciphertxt = "XYENKCKRWAAPAXBZHWU";
    let beaufort = Vigenere::new_beaufort(&ENGLISH, "FRANCIS").unwrap();
    assert_eq!(beaufort.encrypt(plaintext).replace(" ", ""), ciphertxt);
    assert_eq!(beaufort.decrypt(ciphertxt), plaintext.replace(" ", ""));
}

#[test]
fn beaufort_decrypt_equals_encrypt() {
    let beaufort = Vigenere::new_beaufort(&ENGLISH, "FRANCIS").unwrap();
    for text in ["IT WAS GIOVANNI VESTRI", "Attack at dawn, 5 AM!", ""] {
        assert_eq!(beaufort.decrypt(text), beaufort.encrypt(text));
        assert_eq!(beaufort.encrypt(&beaufort.encrypt(text)), text);
    }
}

#[test]
fn vigenere_key_skips_non_members() {
    // The key advances only on members: "A B" with key "BC" gives "B D".
    let vigenere = Vigenere::new(&ENGLISH, "BC").unwrap();
    assert_eq!(vigenere.encrypt("A B"), "B D");
    assert_eq!(vigenere.decrypt("B D"), "A B");
}

#[test]
fn vigenere_round_trip_mixed_text() {
    let vigenere = Vigenere::new(&ENGLISH, "LEMON").unwrap();
    let text = "Attack at Dawn: ALL units, move!";
    assert_eq!(vigenere.decrypt(&vigenere.encrypt(text)), text);
}

#[test]
fn vigenere_errors() {
    assert!(matches!(Vigenere::new(&ENGLISH, "lemon"), Err(CipherError::InvalidKeywordCharacter)));
    assert!(matches!(Vigenere::new(&ENGLISH, ""), Err(CipherError::EmptyKeyword)));
    assert!(matches!(Vigenere::new_beaufort("XYZX", "X"), Err(CipherError::DuplicateAlphabetSymbol)));
}

#[test]
fn vigenere_filter_commutes() {
    let vigenere = Vigenere::new(&ENGLISH, "KEY").unwrap();
    let text = "Go EAST, then NORTH!";
    assert_eq!(
        filter(&vigenere.encrypt(text), ENGLISH),
        vigenere.encrypt(&filter(text, ENGLISH))
    );
}
