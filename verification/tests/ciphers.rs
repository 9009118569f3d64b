use fec_codec::cipher::Cipher;
use fec_codec::errors::CodecError;

#[test]
fn test_caesar_cipher() {
    let cipher = Cipher::new("caesar".to_string(), "3".to_string());
    let message = "Hello, World!";

    let encrypted = cipher.encrypt(message).unwrap();
    assert_eq!(encrypted, "Khoor, Zruog!");

    let decrypted = cipher.decrypt(&encrypted).unwrap();
    assert_eq!(decrypted, message);
}

#[test]
fn test_vigenere_cipher() {
    let cipher = Cipher::new("vigenere".to_string(), "key".to_string());
    let message = "Hello, World!";

    let encrypted = cipher.encrypt(message).unwrap();
    assert_eq!(encrypted, "Rijvs, Uyvjn!");

    let decrypted = cipher.decrypt(&encrypted).unwrap();
    assert_eq!(decrypted, message);
}

#[test]
fn test_xor_cipher() {
    let cipher = Cipher::new("xor".to_string(), "key".to_string());
    let message = "Hello, World!";

    let encrypted = cipher.encrypt(message).unwrap();
    let decrypted = cipher.decrypt(&encrypted).unwrap();

    assert_eq!(decrypted, message);
}

#[test]
fn test_unsupported_algorithm() {
    let cipher = Cipher::new("rot13".to_string(), "3".to_string());
    assert!(matches!(cipher.encrypt("abc"), Err(CodecError::UnsupportedAlgorithm)));
    assert!(matches!(cipher.decrypt("abc"), Err(CodecError::UnsupportedAlgorithm)));
}

#[test]
fn test_caesar_default_key() {
    // A key that does not parse as a number falls back to a shift of 3.
    let cipher = Cipher::new("caesar".to_string(), "abc".to_string());
    assert_eq!(cipher.encrypt("abc xyz").unwrap(), "def abc");
}

#[test]
fn test_caesar_key_four() {
    let cipher = Cipher::new("caesar".to_string(), "4".to_string());
    assert_eq!(cipher.encrypt("abc").unwrap(), "efg");
    assert_eq!(cipher.decrypt("efg").unwrap(), "abc");
}

#[test]
fn test_caesar_large_and_negative_keys() {
    // 29 is congruent to 3 modulo 26.
    let cipher = Cipher::new("caesar".to_string(), "29".to_string());
    assert_eq!(cipher.encrypt("Hello, World!").unwrap(), "Khoor, Zruog!");

    // A negative shift works backwards.
    let cipher = Cipher::new("caesar".to_string(), "-1".to_string());
    assert_eq!(cipher.encrypt("abc").unwrap(), "zab");
    assert_eq!(cipher.decrypt("zab").unwrap(), "abc");
}

#[test]
fn test_caesar_non_alphabetic_pass_through() {
    let cipher = Cipher::new("caesar".to_string(), "5".to_string());
    assert_eq!(cipher.encrypt("12 !?").unwrap(), "12 !?");
}

#[test]
fn test_vigenere_uppercase_key() {
    // The key is case-insensitive.
    let cipher = Cipher::new("vigenere".to_string(), "KEY".to_string());
    assert_eq!(cipher.encrypt("Hello, World!").unwrap(), "Rijvs, Uyvjn!");
}

#[test]
fn test_vigenere_key_without_letters() {
    // A key with no letters leaves the message unchanged.
    let cipher = Cipher::new("vigenere".to_string(), "123".to_string());
    assert_eq!(cipher.encrypt("Hello, World!").unwrap(), "Hello, World!");
    let cipher = Cipher::new("vigenere".to_string(), "".to_string());
    assert_eq!(cipher.encrypt("Hello").unwrap(), "Hello");
}

#[test]
fn test_vigenere_skips_non_alphabetic() {
    // Non-alphabetic characters pass through without consuming a key letter.
    let cipher = Cipher::new("vigenere".to_string(), "ab".to_string());
    // 'x' + 0, 'y' + 1, with the space untouched and 'z' + 0 again.
    assert_eq!(cipher.encrypt("xy z").unwrap(), "xz z");
}

#[test]
fn test_xor_empty_key() {
    let cipher = Cipher::new("xor".to_string(), "".to_string());
    assert_eq!(cipher.encrypt("Hello").unwrap(), "Hello");
    assert_eq!(cipher.decrypt("Hello").unwrap(), "Hello");
}

#[test]
fn test_xor_concrete() {
    // 'H' xor 'k' is 0x23, the '#' character.
    let cipher = Cipher::new("xor".to_string(), "k".to_string());
    let encrypted = cipher.encrypt("H").unwrap();
    assert_eq!(encrypted, "#");
}
