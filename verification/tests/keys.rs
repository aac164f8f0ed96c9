use desktop_edits::keys::{create_secure_key, encode_key_hex, encode_key_string, key_from};
use desktop_edits::keys::{EncodedKey, KEY_SIZE};
use rand::{RngCore, SeedableRng};

#[test]
fn test_key_encoding_length() {
    let mut rand = rand::rngs::StdRng::from_os_rng();
    for _ in 0..100 {
        let mut key: EncodedKey = [0u8; KEY_SIZE];
        rand.fill_bytes(&mut key);
        let encoded = encode_key_string(&key);
        // The encoded key length should be the same regardless of the value of the key
        assert_eq!(encoded.len(), 344);
    }
}

#[test]
fn zero_key_text() {
    let text = encode_key_string(&[0u8; KEY_SIZE]);
    assert_eq!(text, format!("{}==", "A".repeat(342)));
}

#[test]
fn full_key_text() {
    let text = encode_key_string(&[0xffu8; KEY_SIZE]);
    assert_eq!(text, format!("{}_w==", "_".repeat(340)));
}

#[test]
fn counting_key_text() {
    let mut key: EncodedKey = [0u8; KEY_SIZE];
    for i in 0..KEY_SIZE {
        key[i] = i as u8;
    }
    let text = encode_key_string(&key);
    assert!(text.starts_with("AAECAwQFBgcICQoLDA0ODxAREhMUFRYXGBkaGxwdHh8g"));
    assert!(text.ends_with("8PHy8_T19vf4-fr7_P3-_w=="));
}

#[test]
fn key_text_holds_no_separator() {
    for value in 0..=255u8 {
        let text = encode_key_string(&[value; KEY_SIZE]);
        assert!(text
            .chars()
            .all(|c| c.is_ascii_alphanumeric() || c == '-' || c == '_' || c == '='));
    }
}

#[test]
fn different_keys_have_different_texts() {
    let mut other: EncodedKey = [7u8; KEY_SIZE];
    other[255] = 8;
    assert_ne!(encode_key_string(&[7u8; KEY_SIZE]), encode_key_string(&other));
}

#[test]
fn secure_keys_are_drawn_anew() {
    let (first, first_hex) = create_secure_key().unwrap();
    let (second, second_hex) = create_secure_key().unwrap();
    assert_ne!(first[..], second[..]);
    assert_ne!(first[..], [0u8; KEY_SIZE][..]);
    assert_ne!(first_hex, second_hex);
    assert_eq!(first_hex, encode_key_hex(&first));
}

#[test]
fn key_is_the_start_of_the_stream() {
    let mut expected: EncodedKey = [0u8; KEY_SIZE];
    rand::rngs::StdRng::seed_from_u64(42).fill_bytes(&mut expected);
    let (key, hex) = key_from(Some(rand::rngs::StdRng::seed_from_u64(42))).unwrap();
    assert_eq!(key[..], expected[..]);
    let text: String = expected.iter().map(|byte| format!("{byte:02x}")).collect();
    assert_eq!(hex, text);
    let (other, _) = key_from(Some(rand::rngs::StdRng::seed_from_u64(43))).unwrap();
    assert_ne!(other[..], key[..]);
}

#[test]
fn no_generator_gives_no_key() {
    assert!(key_from(None).is_none());
}

#[test]
fn hex_text_of_a_key() {
    let mut key: EncodedKey = [0u8; KEY_SIZE];
    for i in 0..KEY_SIZE {
        key[i] = i as u8;
    }
    let text = encode_key_hex(&key);
    assert_eq!(text.len(), 512);
    assert!(text.starts_with("000102030405060708090a0b0c0d0e0f101112"));
    assert!(text.ends_with("edeeeff0f1f2f3f4f5f6f7f8f9fafbfcfdfeff"));
    key[0] = 1;
    assert_ne!(encode_key_hex(&key), text);
}
