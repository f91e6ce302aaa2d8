//! Data encrypted with AES-256-GCM under a key derived by PBKDF2-HMAC-SHA512.
use vstd::prelude::*;

use aes_gcm::aead::{Aead, KeyInit};
use base64::prelude::BASE64_STANDARD;
use base64::Engine;

use crate::error::JoplinError;

verus! {

/// The nonce length of AES-256-GCM.
pub const AES_GCM_NONCE_SIZE: usize = 12;

/// The authentication tag length of AES-256-GCM.
pub const AES_GCM_TAG_SIZE: usize = 16;

/// The key length of AES-256.
pub const AES_256_KEY_SIZE: usize = 32;

/// `aes_gcm::Error`, the opaque error of a failed decryption.
#[verifier::external_type_specification]
#[verifier::external_body]
pub struct ExAeadError(aes_gcm::Error);

/// What `BASE64_STANDARD.decode` gives for the UTF-8 encoding of `input`
/// (RFC 4648 alphabet, canonical padding required): the bytes, or the
/// error that says where the input goes wrong.
pub uninterp spec fn base64_standard_decode(input: Seq<char>) -> Result<
    Seq<u8>,
    base64::DecodeError,
>;

/// PBKDF2 with HMAC-SHA512 over `rounds` rounds, producing `key_len` bytes.
pub uninterp spec fn pbkdf2_hmac_sha512(
    password: Seq<u8>,
    salt: Seq<u8>,
    rounds: u32,
    key_len: nat,
) -> Seq<u8>;

/// What AES-256-GCM decryption gives: the plaintext, or nothing where the
/// authentication tag does not match.
pub uninterp spec fn aes256gcm_decrypt(key: Seq<u8>, nonce: Seq<u8>, ciphertext: Seq<u8>) -> Option<
    Seq<u8>,
>;

/// `base64::Engine::decode` with the `STANDARD` engine: gives what
/// `base64_standard_decode` names, the bytes or the error.
#[verifier::external_body]
fn base64_decode(input: &str) -> (res: Result<Vec<u8>, base64::DecodeError>)
    ensures
        match res {
            Ok(v) => base64_standard_decode(input@) == Ok::<Seq<u8>, base64::DecodeError>(v@),
            Err(e) => base64_standard_decode(input@) == Err::<Seq<u8>, base64::DecodeError>(e),
        },
{
    BASE64_STANDARD.decode(input)
}

/// `pbkdf2::pbkdf2_hmac::<sha2::Sha512>` into a buffer of `key_len` zero
/// bytes: it fills the whole buffer and never fails.
#[verifier::external_body]
fn derive_key(password: &[u8], salt: &[u8], rounds: u32, key_len: usize) -> (res: Vec<u8>)
    ensures
        res@ == pbkdf2_hmac_sha512(password@, salt@, rounds, key_len as nat),
        res@.len() == key_len,
{
    let mut key = vec![0u8; key_len];
    pbkdf2::pbkdf2_hmac::<sha2::Sha512>(password, salt, rounds, &mut key);
    key
}

/// `Aes256Gcm::new(key).decrypt(nonce, ciphertext)`: succeeds exactly where
/// `aes256gcm_decrypt` is defined, and gives its plaintext. The key and the
/// nonce must have their exact lengths, else `from_slice` panics.
#[verifier::external_body]
fn aes256gcm_open(key: &[u8], nonce: &[u8], ciphertext: &[u8]) -> (res: Result<
    Vec<u8>,
    aes_gcm::Error,
>)
    requires
        key@.len() == AES_256_KEY_SIZE,
        nonce@.len() == AES_GCM_NONCE_SIZE,
    ensures
        match res {
            Ok(p) => aes256gcm_decrypt(key@, nonce@, ciphertext@) == Some(p@),
            Err(_) => aes256gcm_decrypt(key@, nonce@, ciphertext@) is None,
        },
{
    let cipher = aes_gcm::Aes256Gcm::new(aes_gcm::Key::<aes_gcm::Aes256Gcm>::from_slice(key));
    cipher.decrypt(aes_gcm::Nonce::from_slice(nonce), ciphertext)
}

/// The three Base64 fields of an encrypted JSON object.
pub struct EncryptedContent {
    pub salt: String,
    pub iv: String,
    pub ct: String,
}

/// Salt, nonce and ciphertext (with its tag) of encrypted data.
pub struct EncryptedData<const ITERATIONS: u32> {
    salt: Vec<u8>,
    iv: Vec<u8>,
    ciphertext: Vec<u8>,
}

/// The bytes of encrypted data.
pub struct EncryptedDataView {
    pub salt: Seq<u8>,
    pub iv: Seq<u8>,
    pub ciphertext: Seq<u8>,
}

/// Why encrypted content does not decode.
pub enum ContentError {
    Base64(base64::DecodeError),
    IvLength,
    CiphertextLength,
}

/// The encrypted data that the three Base64 fields decode to.
pub open spec fn decode_content(salt: Seq<char>, iv: Seq<char>, ct: Seq<char>) -> Result<
    EncryptedDataView,
    ContentError,
> {
    match base64_standard_decode(salt) {
        Err(e) => Err(ContentError::Base64(e)),
        Ok(salt) => match base64_standard_decode(iv) {
            Err(e) => Err(ContentError::Base64(e)),
            Ok(iv) => if iv.len() != AES_GCM_NONCE_SIZE {
                Err(ContentError::IvLength)
            } else {
                match base64_standard_decode(ct) {
                    Err(e) => Err(ContentError::Base64(e)),
                    Ok(ciphertext) => if ciphertext.len() < AES_GCM_TAG_SIZE {
                        Err(ContentError::CiphertextLength)
                    } else {
                        Ok(EncryptedDataView { salt, iv, ciphertext })
                    },
                }
            },
        },
    }
}

/// Whether `err` is the error that `e` describes.
pub open spec fn content_error_matches(err: JoplinError, e: ContentError) -> bool {
    match e {
        ContentError::Base64(b) => err == JoplinError::Base64(b),
        ContentError::IvLength => err matches JoplinError::Encryption(m) && m@
            == "invalid iv length"@,
        ContentError::CiphertextLength => err matches JoplinError::Encryption(m) && m@
            == "invalid ciphertext length"@,
    }
}

/// Whether `res` is the value or the error that `spec` describes.
pub open spec fn content_result_matches<const ITERATIONS: u32>(
    res: Result<EncryptedData<ITERATIONS>, JoplinError>,
    spec: Result<EncryptedDataView, ContentError>,
) -> bool {
    match spec {
        Ok(view) => res matches Ok(d) && d@ == view,
        Err(e) => res matches Err(err) && content_error_matches(err, e),
    }
}

/// Accepts a decoded nonce of the nonce length of AES-256-GCM.
pub fn check_nonce_length(iv: &[u8]) -> (res: Result<(), JoplinError>)
    ensures
        iv@.len() == AES_GCM_NONCE_SIZE ==> res is Ok,
        iv@.len() != AES_GCM_NONCE_SIZE ==> (res matches Err(err) && content_error_matches(
            err,
            ContentError::IvLength,
        )),
{
    if iv.len() != AES_GCM_NONCE_SIZE {
        Err(JoplinError::Encryption(String::from_str("invalid iv length")))
    } else {
        Ok(())
    }
}

/// Accepts a decoded ciphertext that holds at least an authentication tag.
pub fn check_ciphertext_length(ciphertext: &[u8]) -> (res: Result<(), JoplinError>)
    ensures
        ciphertext@.len() >= AES_GCM_TAG_SIZE ==> res is Ok,
        ciphertext@.len() < AES_GCM_TAG_SIZE ==> (res matches Err(err) && content_error_matches(
            err,
            ContentError::CiphertextLength,
        )),
{
    if ciphertext.len() < AES_GCM_TAG_SIZE {
        Err(JoplinError::Encryption(String::from_str("invalid ciphertext length")))
    } else {
        Ok(())
    }
}

/// The plaintext of `d` under `password`, with the key derived over
/// `iterations` rounds.
pub open spec fn decrypt_with(d: EncryptedDataView, iterations: u32, password: Seq<u8>) -> Option<
    Seq<u8>,
> {
    aes256gcm_decrypt(
        pbkdf2_hmac_sha512(password, d.salt, iterations, AES_256_KEY_SIZE as nat),
        d.iv,
        d.ciphertext,
    )
}

impl<const ITERATIONS: u32> View for EncryptedData<ITERATIONS> {
    type V = EncryptedDataView;

    closed spec fn view(&self) -> EncryptedDataView {
        EncryptedDataView { salt: self.salt@, iv: self.iv@, ciphertext: self.ciphertext@ }
    }
}

impl<const ITERATIONS: u32> EncryptedData<ITERATIONS> {
    #[verifier::type_invariant]
    closed spec fn well_formed(&self) -> bool {
        &&& self.iv@.len() == AES_GCM_NONCE_SIZE
        &&& self.ciphertext@.len() >= AES_GCM_TAG_SIZE
    }

    /// Decodes the Base64 salt, nonce and ciphertext of an encrypted object.
    pub fn from_content(content: &EncryptedContent) -> (res: Result<Self, JoplinError>)
        ensures
            content_result_matches(
                res,
                decode_content(content.salt@, content.iv@, content.ct@),
            ),
    {
        let salt = match base64_decode(content.salt.as_str()) {
            Ok(v) => v,
            Err(e) => {
                return Err(JoplinError::Base64(e));
            },
        };
        let iv = match base64_decode(content.iv.as_str()) {
            Ok(v) => v,
            Err(e) => {
                return Err(JoplinError::Base64(e));
            },
        };
        if let Err(e) = check_nonce_length(iv.as_slice()) {
            return Err(e);
        }
        let ciphertext = match base64_decode(content.ct.as_str()) {
            Ok(v) => v,
            Err(e) => {
                return Err(JoplinError::Base64(e));
            },
        };
        if let Err(e) = check_ciphertext_length(ciphertext.as_slice()) {
            return Err(e);
        }
        Ok(EncryptedData { salt, iv, ciphertext })
    }

    /// Decrypts with the key that `password` gives.
    pub fn decrypt(&self, password: &[u8]) -> (res: Result<Vec<u8>, JoplinError>)
        ensures
            match decrypt_with(self@, ITERATIONS, password@) {
                Some(p) => res matches Ok(v) && v@ == p,
                None => res matches Err(JoplinError::Encryption(m)) && m@ == "decryption failed"@,
            },
    {
        proof {
            use_type_invariant(self);
        }
        let key = derive_key(password, self.salt.as_slice(), ITERATIONS, AES_256_KEY_SIZE);
        match aes256gcm_open(key.as_slice(), self.iv.as_slice(), self.ciphertext.as_slice()) {
            Ok(p) => Ok(p),
            Err(_) => Err(JoplinError::Encryption(String::from_str("decryption failed"))),
        }
    }
}

} // verus!
