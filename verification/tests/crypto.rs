use aes_gcm::aead::{Aead, KeyInit};
use aes_gcm::{Aes256Gcm, Nonce};
use base64::engine::general_purpose::URL_SAFE_NO_PAD;
use base64::Engine;
use site_encrypt::crypto::{decrypt, encrypt, encrypt_with, EncryptError, Encrypted};

fn opened(payload: &Encrypted, password: &str) -> Option<String> {
    let salt = URL_SAFE_NO_PAD.decode(&payload.salt).ok()?;
    let nonce = URL_SAFE_NO_PAD.decode(&payload.nonce).ok()?;
    let sealed = URL_SAFE_NO_PAD.decode(&payload.ciphertext).ok()?;
    let mut key = [0u8; 32];
    pbkdf2::pbkdf2_hmac::<sha2::Sha256>(password.as_bytes(), &salt, payload.iterations, &mut key);
    let cipher = Aes256Gcm::new_from_slice(&key).ok()?;
    let opened = cipher.decrypt(Nonce::from_slice(&nonce), sealed.as_slice()).ok()?;
    String::from_utf8(opened).ok()
}

#[test]
fn main_encryption_is_randomized() {
    let a = encrypt("hello", "password", 100_000).unwrap();
    let b = encrypt("hello", "password", 100_000).unwrap();
    assert_ne!(a.ciphertext, b.ciphertext);
    assert_ne!(a.salt, b.salt);
    assert_ne!(a.nonce, b.nonce);
}

#[test]
fn tests_encryption_is_randomized() {
    let a = encrypt("hello", "password", 100_000).unwrap();
    let b = encrypt("hello", "password", 100_000).unwrap();
    assert_ne!(a.ciphertext, b.ciphertext);
    assert_ne!(a.salt, b.salt);
    assert_ne!(a.nonce, b.nonce);
}

#[test]
fn password_opens_the_payload() {
    let text = "<p>secret \u{1f512}</p>";
    let payload = encrypt(text, "pw", 1000).unwrap();
    assert_eq!(payload.iterations, 1000);
    assert_eq!(opened(&payload, "pw").as_deref(), Some(text));
    assert_eq!(opened(&payload, "other"), None);
    assert_eq!(decrypt(&payload, "pw").as_deref(), Some(text));
    assert_eq!(decrypt(&payload, "other"), None);
}

#[test]
fn salt_and_nonce_have_their_lengths() {
    let payload = encrypt("", "", 1).unwrap();
    assert_eq!(URL_SAFE_NO_PAD.decode(&payload.salt).unwrap().len(), 16);
    assert_eq!(URL_SAFE_NO_PAD.decode(&payload.nonce).unwrap().len(), 12);
    // nothing but the tag
    assert_eq!(URL_SAFE_NO_PAD.decode(&payload.ciphertext).unwrap().len(), 16);
    assert_eq!(opened(&payload, "").as_deref(), Some(""));
    assert_eq!(decrypt(&payload, "").as_deref(), Some(""));
}

#[test]
fn ciphertext_has_the_length_of_the_content_and_a_tag() {
    for len in 0..8 {
        let payload = encrypt(&"x".repeat(len), "pw", 1).unwrap();
        assert_eq!(URL_SAFE_NO_PAD.decode(&payload.ciphertext).unwrap().len(), len + 16);
        assert_eq!(payload.ciphertext.len(), (4 * (len + 16) + 2) / 3);
    }
}

#[test]
fn decrypting_a_payload_made_elsewhere() {
    let mut key = [0u8; 32];
    pbkdf2::pbkdf2_hmac::<sha2::Sha256>(b"pw", &[5; 16], 3, &mut key);
    let cipher = Aes256Gcm::new_from_slice(&key).unwrap();
    let sealed = cipher.encrypt(Nonce::from_slice(&[9; 12]), "caf\u{e9}".as_bytes()).unwrap();
    let payload = Encrypted {
        salt: URL_SAFE_NO_PAD.encode([5; 16]),
        nonce: URL_SAFE_NO_PAD.encode([9; 12]),
        ciphertext: URL_SAFE_NO_PAD.encode(&sealed),
        iterations: 3,
    };
    assert_eq!(decrypt(&payload, "pw").as_deref(), Some("caf\u{e9}"));
    // bytes that are no text
    let sealed = cipher.encrypt(Nonce::from_slice(&[9; 12]), &[0xffu8][..]).unwrap();
    let binary = Encrypted { ciphertext: URL_SAFE_NO_PAD.encode(sealed), ..payload };
    assert_eq!(decrypt(&binary, "pw"), None);
}

#[test]
fn payloads_that_cannot_be_opened() {
    let good = || encrypt_with("hello", "pw", 2, &[1; 16], &[2; 12]).unwrap();
    assert_eq!(decrypt(&good(), "pw").as_deref(), Some("hello"));
    for bad in [
        Encrypted { iterations: 3, ..good() },
        Encrypted { salt: URL_SAFE_NO_PAD.encode([3; 16]), ..good() },
        Encrypted { nonce: URL_SAFE_NO_PAD.encode([3; 12]), ..good() },
        Encrypted { nonce: URL_SAFE_NO_PAD.encode([2; 11]), ..good() },
        Encrypted { nonce: String::new(), ..good() },
        Encrypted { salt: "&".to_string(), ..good() },
        Encrypted { nonce: "=".to_string(), ..good() },
        Encrypted { ciphertext: "A".to_string(), ..good() },
        Encrypted { ciphertext: String::new(), ..good() },
        Encrypted { ciphertext: URL_SAFE_NO_PAD.encode([0; 21]), ..good() },
    ] {
        assert_eq!(decrypt(&bad, "pw"), None);
    }
}

#[test]
fn key_is_pbkdf2_hmac_sha256() {
    // "password", "salt", one iteration
    let key: [u8; 32] = [
        0x12, 0x0f, 0xb6, 0xcf, 0xfc, 0xf8, 0xb3, 0x2c, 0x43, 0xe7, 0x22, 0x52, 0x56, 0xc4, 0xf8,
        0x37, 0xa8, 0x65, 0x48, 0xc9, 0x2c, 0xcc, 0x35, 0x48, 0x08, 0x05, 0x98, 0x7c, 0xb7, 0x0b,
        0xe1, 0x7b,
    ];
    let nonce = [7u8; 12];
    let cipher = Aes256Gcm::new_from_slice(&key).unwrap();
    let expected = cipher.encrypt(Nonce::from_slice(&nonce), "hello".as_bytes()).unwrap();
    let payload = encrypt_with("hello", "password", 1, b"salt", &nonce).unwrap();
    assert_eq!(payload.ciphertext, URL_SAFE_NO_PAD.encode(expected));
    assert_eq!(payload.salt, "c2FsdA");
    assert_eq!(payload.nonce, "BwcHBwcHBwcHBwcH");
    assert_eq!(payload.iterations, 1);
}

#[test]
fn payloads_differ_where_the_content_does() {
    let nonce = [0u8; 12];
    let a = encrypt_with("a", "pw", 2, &[1; 16], &nonce).unwrap();
    let b = encrypt_with("b", "pw", 2, &[1; 16], &nonce).unwrap();
    let again = encrypt_with("a", "pw", 2, &[1; 16], &nonce).unwrap();
    assert_ne!(a.ciphertext, b.ciphertext);
    assert_eq!(a.ciphertext, again.ciphertext);
}

#[test]
fn payload_needs_no_escaping() {
    let payload = encrypt("<&>\"'", "pw", 1).unwrap();
    for part in [&payload.salt, &payload.nonce, &payload.ciphertext] {
        assert!(part.chars().all(|c| c.is_ascii_alphanumeric() || c == '-' || c == '_'));
    }
}

#[test]
fn encrypt_error_text() {
    assert_eq!(EncryptError::TooLong.message(), "AES-GCM encryption failed");
}
