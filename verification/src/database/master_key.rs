//! Master keys, decrypted on first use and kept decrypted.
use vstd::prelude::*;
use vstd::utf8::encode_utf8;

use crate::decoder::json::DecodedMasterKey;
use crate::encryption::generic::{
    content_error_matches, decode_content, decrypt_with, ContentError, EncryptedDataView,
};
use crate::encryption::{
    EncryptedContent, EncryptedKeyV1, ENCRYPTION_METHOD_KEY_V1, KEY_V1_ITERATIONS,
};
use crate::error::JoplinError;
use crate::password::JoplinPasswordProvider;
use crate::text::{decimal, push_decimal};

verus! {

enum KeyContents {
    EncryptedV1(EncryptedKeyV1),
    Decrypted(Vec<u8>),
}

/// A master key, encrypted until it is first asked for.
pub struct JoplinMasterKey {
    id: String,
    contents: KeyContents,
}

/// The contents of a master key.
pub enum KeyState {
    Encrypted(EncryptedDataView),
    Decrypted(Seq<u8>),
}

/// A master key as its id and contents.
pub struct MasterKeyView {
    pub id: Seq<char>,
    pub state: KeyState,
}

impl View for JoplinMasterKey {
    type V = MasterKeyView;

    closed spec fn view(&self) -> MasterKeyView {
        MasterKeyView {
            id: self.id@,
            state: match self.contents {
                KeyContents::EncryptedV1(k) => KeyState::Encrypted(k@),
                KeyContents::Decrypted(d) => KeyState::Decrypted(d@),
            },
        }
    }
}

/// Why a listed master key is not loaded.
pub enum KeyLoadError {
    UnsupportedMethod(u32),
    Json,
    Content(ContentError),
}

/// The key that a listed master key loads to, given what its `content`
/// decodes to as JSON (`None` where it is no such JSON object).
pub open spec fn load_key(
    method: u32,
    id: Seq<char>,
    content: Option<(Seq<char>, Seq<char>, Seq<char>)>,
) -> Result<MasterKeyView, KeyLoadError> {
    if method == ENCRYPTION_METHOD_KEY_V1 {
        match content {
            None => Err(KeyLoadError::Json),
            Some((salt, iv, ct)) => match decode_content(salt, iv, ct) {
                Ok(d) => Ok(MasterKeyView { id, state: KeyState::Encrypted(d) }),
                Err(e) => Err(KeyLoadError::Content(e)),
            },
        }
    } else {
        Err(KeyLoadError::UnsupportedMethod(method))
    }
}

pub open spec fn content_view(content: Result<EncryptedContent, serde_json::Error>) -> Option<
    (Seq<char>, Seq<char>, Seq<char>),
> {
    match content {
        Ok(c) => Some((c.salt@, c.iv@, c.ct@)),
        Err(_) => None,
    }
}

/// Whether `err` is the error `e` describes; a JSON error is the one that
/// came with the content.
pub open spec fn key_error_matches(
    err: JoplinError,
    e: KeyLoadError,
    content: Result<EncryptedContent, serde_json::Error>,
) -> bool {
    match e {
        KeyLoadError::UnsupportedMethod(n) => err matches JoplinError::Encryption(m) && m@
            == "unsupported encryption type "@ + decimal(n as nat),
        KeyLoadError::Json => content matches Err(j) && err == JoplinError::SerdeJson(j),
        KeyLoadError::Content(c) => content_error_matches(err, c),
    }
}

/// Whether `res` is the key or the error that `spec` describes.
pub open spec fn key_result_matches(
    res: Result<JoplinMasterKey, JoplinError>,
    spec: Result<MasterKeyView, KeyLoadError>,
    content: Result<EncryptedContent, serde_json::Error>,
) -> bool {
    match spec {
        Ok(k) => res matches Ok(key) && key@ == k,
        Err(e) => res matches Err(err) && key_error_matches(err, e, content),
    }
}

/// The key that `password` unlocks: `Some` with the plaintext key where it
/// decrypts the contents.
pub open spec fn unlock_with(key: MasterKeyView, password: Seq<char>) -> Option<Seq<u8>> {
    match key.state {
        KeyState::Decrypted(d) => Some(d),
        KeyState::Encrypted(e) => decrypt_with(e, KEY_V1_ITERATIONS, encode_utf8(password)),
    }
}

/// A key, once unlocked, stays unlocked: whatever password comes next, it
/// gives the same plaintext key.
pub proof fn lemma_unlock_keeps_key(key: MasterKeyView, password: Seq<char>, next: Seq<char>)
    requires
        unlock_with(key, password) is Some,
    ensures
        unlock_with(
            MasterKeyView {
                id: key.id,
                state: KeyState::Decrypted(unlock_with(key, password)->0),
            },
            next,
        ) == unlock_with(key, password),
{
}

impl JoplinMasterKey {
    /// Loads a master key listed in `info.json`; `content` is what the
    /// key's `content` field decodes to as JSON.
    pub fn from_decoded(
        d: &DecodedMasterKey,
        content: Result<EncryptedContent, serde_json::Error>,
    ) -> (res: Result<JoplinMasterKey, JoplinError>)
        ensures
            key_result_matches(
                res,
                load_key(d.encryption_method, d.id@, content_view(content)),
                content,
            ),
    {
        if d.encryption_method == ENCRYPTION_METHOD_KEY_V1 {
            match content {
                Err(e) => Err(JoplinError::SerdeJson(e)),
                Ok(c) => match EncryptedKeyV1::from_content(&c) {
                    Ok(k) => Ok(JoplinMasterKey { id: d.id.clone(), contents: KeyContents::EncryptedV1(k) }),
                    Err(e) => Err(e),
                },
            }
        } else {
            let mut msg = String::from_str("unsupported encryption type ");
            push_decimal(&mut msg, d.encryption_method);
            Err(JoplinError::Encryption(msg))
        }
    }

    /// Whether the two keys have the same id.
    pub fn same_id(&self, other: &JoplinMasterKey) -> (res: bool)
        ensures
            res == (self@.id == other@.id),
    {
        self.id == other.id
    }

    /// Whether the key has been decrypted.
    pub fn is_decrypted(&self) -> (res: bool)
        ensures
            res == (self@.state is Decrypted),
    {
        match self.contents {
            KeyContents::Decrypted(_) => true,
            KeyContents::EncryptedV1(_) => false,
        }
    }

    /// The plaintext key, decrypted with the password that `password` holds
    /// where it is still encrypted; a decrypted key is kept.
    pub fn unlock(&mut self, password: Result<String, JoplinError>) -> (res: Result<
        Vec<u8>,
        JoplinError,
    >)
        ensures
            final(self)@.id == old(self)@.id,
            match old(self)@.state {
                KeyState::Decrypted(d) => res matches Ok(v) && v@ == d && final(self)@ == old(
                    self,
                )@,
                KeyState::Encrypted(_) => match password {
                    Err(e) => res == Err::<Vec<u8>, JoplinError>(e) && final(self)@ == old(self)@,
                    Ok(pw) => match unlock_with(old(self)@, pw@) {
                        Some(k) => res matches Ok(v) && v@ == k && final(self)@.state
                            == KeyState::Decrypted(k),
                        None => res matches Err(JoplinError::Encryption(m)) && m@
                            == "decryption failed"@ && final(self)@ == old(self)@,
                    },
                },
            },
    {
        let decrypted = match &self.contents {
            KeyContents::Decrypted(d) => {
                return Ok(d.clone());
            },
            KeyContents::EncryptedV1(key) => {
                let pw = match password {
                    Err(e) => {
                        return Err(e);
                    },
                    Ok(pw) => pw,
                };
                match key.decrypt(pw.as_str().as_bytes()) {
                    Err(e) => {
                        return Err(e);
                    },
                    Ok(d) => d,
                }
            },
        };
        self.contents = KeyContents::Decrypted(decrypted.clone());
        Ok(decrypted)
    }

    /// The plaintext key. While the key is still encrypted, the password
    /// provider is asked once for the password of this key's id, and the
    /// result is what that password unlocks; a decrypted key is returned
    /// without asking.
    pub fn get_key<P: JoplinPasswordProvider>(&mut self, password_provider: &mut P) -> (res:
        Result<Vec<u8>, JoplinError>)
        ensures
            final(self)@.id == old(self)@.id,
            match old(self)@.state {
                KeyState::Decrypted(d) => res matches Ok(v) && v@ == d && final(self)@ == old(
                    self,
                )@ && *final(password_provider) == *old(password_provider),
                KeyState::Encrypted(_) => {
                    let asked = final(password_provider).requests();
                    &&& asked.len() == old(password_provider).requests().len() + 1
                    &&& asked.drop_last() == old(password_provider).requests()
                    &&& asked.last().0 == old(self)@.id
                    &&& match asked.last().1 {
                        Err(e) => res == Err::<Vec<u8>, JoplinError>(e) && final(self)@ == old(
                            self,
                        )@,
                        Ok(pw) => match unlock_with(old(self)@, pw@) {
                            Some(k) => res matches Ok(v) && v@ == k && final(self)@.state
                                == KeyState::Decrypted(k),
                            None => res matches Err(JoplinError::Encryption(m)) && m@
                                == "decryption failed"@ && final(self)@ == old(self)@,
                        },
                    }
                },
            },
    {
        if let KeyContents::Decrypted(d) = &self.contents {
            return Ok(d.clone());
        }
        let password = password_provider.get_password(self.id.as_str());
        self.unlock(password)
    }
}

} // verus!
