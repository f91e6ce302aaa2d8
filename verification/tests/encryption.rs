use aes_gcm::aead::{Aead, KeyInit};
use aes_gcm::{Aes256Gcm, Key, Nonce};
use base64::prelude::BASE64_STANDARD;
use base64::Engine;
use joplin_lite::database::master_key::JoplinMasterKey;
use joplin_lite::decoder::json::DecodedMasterKey;
use joplin_lite::database::load_master_keys;
use joplin_lite::encryption::generic::{check_ciphertext_length, check_nonce_length};
use joplin_lite::encryption::{EncryptedContent, EncryptedStringV1};
use joplin_lite::error::JoplinError;
use joplin_lite::password::{JoplinPasswordProvider, PasswordRequests};

fn seal(password: &str, salt: &[u8], iv: &[u8], rounds: u32, plaintext: &[u8]) -> EncryptedContent {
    let mut key = [0u8; 32];
    pbkdf2::pbkdf2_hmac::<sha2::Sha512>(password.as_bytes(), salt, rounds, &mut key);
    let cipher = Aes256Gcm::new(Key::<Aes256Gcm>::from_slice(&key));
    let ct = cipher.encrypt(Nonce::from_slice(iv), plaintext).unwrap();
    EncryptedContent {
        salt: BASE64_STANDARD.encode(salt),
        iv: BASE64_STANDARD.encode(iv),
        ct: BASE64_STANDARD.encode(ct),
    }
}

#[test]
fn string_decrypts_with_right_password() {
    let content = seal("secret", b"some salt", &[7u8; 12], 3, b"hello joplin");
    let data = EncryptedStringV1::from_content(&content).unwrap();
    assert_eq!(data.decrypt(b"secret").unwrap(), b"hello joplin".to_vec());
    match data.decrypt(b"wrong") {
        Err(JoplinError::Encryption(m)) => assert_eq!(m, "decryption failed"),
        _ => panic!("expected a decryption failure"),
    }
}

#[test]
fn content_length_checks() {
    let good = seal("p", b"s", &[1u8; 12], 3, b"x");
    let short_iv = EncryptedContent { iv: BASE64_STANDARD.encode([1u8; 11]), ..good };
    match EncryptedStringV1::from_content(&short_iv) {
        Err(JoplinError::Encryption(m)) => assert_eq!(m, "invalid iv length"),
        _ => panic!("expected an iv length error"),
    }
    let short_ct = EncryptedContent {
        salt: BASE64_STANDARD.encode(b"s"),
        iv: BASE64_STANDARD.encode([1u8; 12]),
        ct: BASE64_STANDARD.encode([0u8; 15]),
    };
    match EncryptedStringV1::from_content(&short_ct) {
        Err(JoplinError::Encryption(m)) => assert_eq!(m, "invalid ciphertext length"),
        _ => panic!("expected a ciphertext length error"),
    }
    let bad = EncryptedContent { salt: "a=b".to_string(), iv: String::new(), ct: String::new() };
    assert!(matches!(EncryptedStringV1::from_content(&bad), Err(JoplinError::Base64(_))));
}

struct CountingProvider {
    asked: u32,
}

impl JoplinPasswordProvider for CountingProvider {
    fn requests(&self) -> PasswordRequests {
        unreachable!()
    }

    fn get_password(&mut self, key_id: &str) -> Result<String, JoplinError> {
        assert_eq!(key_id, "main-key");
        self.asked += 1;
        Ok(String::from("master password"))
    }
}

#[test]
fn master_key_is_decrypted_once() {
    let content = seal("master password", b"key salt", &[3u8; 12], 220000, b"the key bytes");
    let decoded = DecodedMasterKey { encryption_method: 8, id: "main-key".to_string(), content: String::new() };
    let mut key = JoplinMasterKey::from_decoded(&decoded, Ok(content)).unwrap();
    assert!(!key.is_decrypted());
    let mut provider = CountingProvider { asked: 0 };
    assert_eq!(key.get_key(&mut provider).unwrap(), b"the key bytes".to_vec());
    assert!(key.is_decrypted());
    assert_eq!(key.get_key(&mut provider).unwrap(), b"the key bytes".to_vec());
    assert_eq!(provider.asked, 1);
}

#[test]
fn master_key_unlock_failures_keep_it_encrypted() {
    let content = seal("pw", b"salt", &[3u8; 12], 220000, b"k");
    let decoded = DecodedMasterKey { encryption_method: 8, id: "k".to_string(), content: String::new() };
    let mut key = JoplinMasterKey::from_decoded(&decoded, Ok(content)).unwrap();
    assert!(matches!(key.unlock(Err(JoplinError::Usage)), Err(JoplinError::Usage)));
    assert!(matches!(key.unlock(Ok("nope".to_string())), Err(JoplinError::Encryption(_))));
    assert!(!key.is_decrypted());
    assert_eq!(key.unlock(Ok("pw".to_string())).unwrap(), b"k".to_vec());
    assert_eq!(key.unlock(Ok("anything".to_string())).unwrap(), b"k".to_vec());
}

#[test]
fn master_key_unsupported_method() {
    let decoded = DecodedMasterKey { encryption_method: 10, id: "k".to_string(), content: String::new() };
    match JoplinMasterKey::from_decoded(&decoded, Err(serde_json::from_str::<u32>("").unwrap_err())) {
        Err(JoplinError::Encryption(m)) => assert_eq!(m, "unsupported encryption type 10"),
        _ => panic!("expected an unsupported method error"),
    }
}

#[test]
fn base64_error_is_the_decoders_own() {
    let bad = EncryptedContent { salt: "a=b".to_string(), iv: String::new(), ct: String::new() };
    let expected = BASE64_STANDARD.decode("a=b").unwrap_err();
    match EncryptedStringV1::from_content(&bad) {
        Err(JoplinError::Base64(e)) => assert_eq!(e, expected),
        _ => panic!("expected a Base64 error"),
    }
    let good_salt = BASE64_STANDARD.encode(b"salt");
    let bad_iv = EncryptedContent { salt: good_salt, iv: "AAAA*".to_string(), ct: String::new() };
    let expected = BASE64_STANDARD.decode("AAAA*").unwrap_err();
    match EncryptedStringV1::from_content(&bad_iv) {
        Err(JoplinError::Base64(e)) => assert_eq!(e, expected),
        _ => panic!("expected a Base64 error"),
    }
}

#[test]
fn nonce_and_ciphertext_length_checks() {
    assert!(check_nonce_length(&[0u8; 12]).is_ok());
    match check_nonce_length(&[0u8; 13]) {
        Err(JoplinError::Encryption(m)) => assert_eq!(m, "invalid iv length"),
        _ => panic!("expected an iv length error"),
    }
    assert!(check_ciphertext_length(&[0u8; 16]).is_ok());
    assert!(check_ciphertext_length(&[0u8; 40]).is_ok());
    match check_ciphertext_length(&[0u8; 15]) {
        Err(JoplinError::Encryption(m)) => assert_eq!(m, "invalid ciphertext length"),
        _ => panic!("expected a ciphertext length error"),
    }
}

struct ScriptedProvider {
    answers: Vec<Result<String, JoplinError>>,
    asked: Vec<String>,
}

impl JoplinPasswordProvider for ScriptedProvider {
    fn requests(&self) -> PasswordRequests {
        unreachable!()
    }

    fn get_password(&mut self, key_id: &str) -> Result<String, JoplinError> {
        self.asked.push(key_id.to_string());
        self.answers.remove(0)
    }
}

#[test]
fn master_key_is_asked_again_after_a_failed_unlock() {
    let content = seal("right", b"salt", &[5u8; 12], 220000, b"plain key");
    let decoded = DecodedMasterKey { encryption_method: 8, id: "key-7".to_string(), content: String::new() };
    let mut key = JoplinMasterKey::from_decoded(&decoded, Ok(content)).unwrap();
    let mut provider = ScriptedProvider {
        answers: vec![
            Err(JoplinError::Password("no password".to_string())),
            Ok("wrong".to_string()),
            Ok("right".to_string()),
        ],
        asked: vec![],
    };
    match key.get_key(&mut provider) {
        Err(JoplinError::Password(m)) => assert_eq!(m, "no password"),
        _ => panic!("expected the provider's error"),
    }
    assert!(!key.is_decrypted());
    match key.get_key(&mut provider) {
        Err(JoplinError::Encryption(m)) => assert_eq!(m, "decryption failed"),
        _ => panic!("expected a decryption failure"),
    }
    assert!(!key.is_decrypted());
    assert_eq!(key.get_key(&mut provider).unwrap(), b"plain key".to_vec());
    assert_eq!(provider.asked, vec!["key-7", "key-7", "key-7"]);
    assert_eq!(key.get_key(&mut provider).unwrap(), b"plain key".to_vec());
    assert_eq!(provider.asked.len(), 3);
}

#[test]
fn later_key_of_same_id_replaces_earlier() {
    let unsealed = |n: u8| EncryptedContent {
        salt: BASE64_STANDARD.encode(b"salt"),
        iv: BASE64_STANDARD.encode([n; 12]),
        ct: BASE64_STANDARD.encode([n; 16]),
    };
    let first = unsealed(1);
    let other = unsealed(3);
    let second = seal("two", b"salt", &[2u8; 12], 220000, b"second");
    let listed = vec![
        (DecodedMasterKey { encryption_method: 8, id: "a".to_string(), content: String::new() }, Ok(first)),
        (DecodedMasterKey { encryption_method: 8, id: "b".to_string(), content: String::new() }, Ok(other)),
        (DecodedMasterKey { encryption_method: 8, id: "a".to_string(), content: String::new() }, Ok(second)),
    ];
    let mut keys = load_master_keys(listed).unwrap();
    assert_eq!(keys.len(), 2);
    assert!(!keys[0].same_id(&keys[1]));
    let mut provider = ScriptedProvider {
        answers: vec![Ok("two".to_string()), Err(JoplinError::Usage)],
        asked: vec![],
    };
    assert_eq!(keys[0].get_key(&mut provider).unwrap(), b"second".to_vec());
    assert!(matches!(keys[1].get_key(&mut provider), Err(JoplinError::Usage)));
    assert_eq!(provider.asked, vec!["a", "b"]);
}

#[test]
fn load_master_keys_stops_at_first_bad_key() {
    let good = seal("pw", b"salt", &[1u8; 12], 220000, b"k");
    let listed = vec![
        (DecodedMasterKey { encryption_method: 8, id: "a".to_string(), content: String::new() }, Ok(good)),
        (DecodedMasterKey { encryption_method: 9, id: "b".to_string(), content: String::new() },
            Err(serde_json::from_str::<u32>("").unwrap_err())),
        (DecodedMasterKey { encryption_method: 3, id: "c".to_string(), content: String::new() },
            Err(serde_json::from_str::<u32>("").unwrap_err())),
    ];
    match load_master_keys(listed) {
        Err(JoplinError::Encryption(m)) => assert_eq!(m, "unsupported encryption type 9"),
        _ => panic!("expected the first key error"),
    }
}
