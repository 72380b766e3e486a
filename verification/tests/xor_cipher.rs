//! XOR encryption round trips.
use euler::xor_decryption::decrypt_xor;
use euler::xor_decryption::encrypt_xor;

const TEST_KEYS: &[&[u8]] = &[b"acd", b"zrt", b"fdw", b"piano player"];

const TEST_STRINGS: &[&str] = &[
    "The rain in spain falls gently on the plain.",
    "The quick brown fox jumps over the lazy dog.",
    "Everybody clap your hands!!!! :D",
];

#[test]
fn decrypt_rejects_invalid_utf8() {
    // 0xFF xor 0x00 is 0xFF, never valid UTF-8.
    assert!(euler::xor_decryption::decrypt_xor(&[0xFF], &[0x00]).is_none());
    // The same byte under a key that flips it back into ASCII decodes.
    assert_eq!(
        euler::xor_decryption::decrypt_xor(&[0xFF], &[0xBE]).as_deref(),
        Some("A")
    );
}

#[test]
fn xor_encryption_roundtrip() {
    for &key in TEST_KEYS {
        for &text in TEST_STRINGS {
            let encrypted = encrypt_xor(text, key);
            let decrypted = decrypt_xor(&encrypted, key).unwrap();
            assert_eq!(decrypted, text)
        }
    }
}
